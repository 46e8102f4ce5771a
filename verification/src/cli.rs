//! The command line.

use crate::models::RunMode;
use crate::text::{equal, strings};
use vstd::prelude::*;

verus! {

/// The mathematical view of a [`RunMode`].
pub enum RunModeView {
    All,
    SingleHyprland(Seq<char>),
    SingleSxhkd(Seq<char>),
}

impl View for RunMode {
    type V = RunModeView;

    open spec fn view(&self) -> RunModeView {
        match self {
            RunMode::All => RunModeView::All,
            RunMode::SingleHyprland(path) => RunModeView::SingleHyprland(path@),
            RunMode::SingleSxhkd(path) => RunModeView::SingleSxhkd(path@),
        }
    }
}

/// The mode after the arguments from position `i` on, `mode` being the mode
/// before them. `--hyprland PATH` and `--sxhkd PATH` each set the mode and
/// take two arguments; an option without a path after it, and any other
/// argument, is passed over. The last option decides.
pub open spec fn mode_from(args: Seq<Seq<char>>, i: int, mode: RunModeView) -> RunModeView
    decreases args.len() - i,
{
    if i < 0 || i >= args.len() {
        mode
    } else if args[i] == "--hyprland"@ && i + 1 < args.len() {
        mode_from(args, i + 2, RunModeView::SingleHyprland(args[i + 1]))
    } else if args[i] == "--sxhkd"@ && i + 1 < args.len() {
        mode_from(args, i + 2, RunModeView::SingleSxhkd(args[i + 1]))
    } else {
        mode_from(args, i + 1, mode)
    }
}

/// Reads the mode from the arguments of the program; the first argument,
/// the program's name, is not looked at.
pub fn parse_args(args: &Vec<String>) -> (mode: RunMode)
    ensures
        mode@ == mode_from(strings(args@), 1, RunModeView::All),
{
    let mut mode = RunMode::All;
    let mut i: usize = 1;
    while i < args.len()
        invariant
            1 <= i,
            mode_from(strings(args@), 1, RunModeView::All) == mode_from(
                strings(args@),
                i as int,
                mode@,
            ),
        decreases args.len() - i,
    {
        proof {
            assert(strings(args@)[i as int] == args@[i as int]@);
        }
        let has_path = i < args.len() - 1;
        if has_path && equal(args[i].as_str(), "--hyprland") {
            proof {
                assert(strings(args@)[i + 1] == args@[i + 1]@);
            }
            mode = RunMode::SingleHyprland(args[i + 1].clone());
            i += 2;
        } else if has_path && equal(args[i].as_str(), "--sxhkd") {
            proof {
                assert(strings(args@)[i + 1] == args@[i + 1]@);
            }
            mode = RunMode::SingleSxhkd(args[i + 1].clone());
            i += 2;
        } else {
            i += 1;
        }
    }
    mode
}

} // verus!
