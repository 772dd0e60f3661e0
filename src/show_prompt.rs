use vstd::prelude::*;

use crate::share::{arg_views, opt_view};
use crate::text::parse_bounded_spec;

verus! {

/// Arguments of `show-prompt`: a prompt id, and either a commit to look
/// in or how many matches to skip.
#[derive(Debug, Clone, PartialEq, Eq)]
pub struct ParsedArgs {
    pub prompt_id: String,
    pub commit: Option<String>,
    pub offset: usize,
}

pub open spec fn opt_int(o: Option<usize>) -> Option<int> {
    match o {
        Some(n) => Some(n as int),
        None => None,
    }
}

/// Reads `args` from position `i` on, with what was read so far: the
/// prompt id, commit and offset, or none when the arguments are rejected.
pub open spec fn show_scan(
    args: Seq<Seq<char>>,
    i: int,
    prompt: Option<Seq<char>>,
    commit: Option<Seq<char>>,
    offset: Option<int>,
) -> Option<(Seq<char>, Option<Seq<char>>, int)>
    decreases args.len() - i,
{
    if i < 0 || i >= args.len() {
        match prompt {
            Some(p) => if commit is Some && offset is Some {
                None
            } else {
                Some(
                    (
                        p,
                        commit,
                        match offset {
                            Some(o) => o,
                            None => 0,
                        },
                    ),
                )
            },
            None => None,
        }
    } else if args[i] == "--commit"@ {
        if i + 1 >= args.len() {
            None
        } else {
            show_scan(args, i + 2, prompt, Some(args[i + 1]), offset)
        }
    } else if args[i] == "--offset"@ {
        if i + 1 >= args.len() {
            None
        } else {
            match parse_bounded_spec(args[i + 1], usize::MAX as int) {
                Some(n) => show_scan(args, i + 2, prompt, commit, Some(n)),
                None => None,
            }
        }
    } else if args[i].len() > 0 && args[i][0] == '-' {
        None
    } else if prompt is Some {
        None
    } else {
        show_scan(args, i + 1, Some(args[i]), commit, offset)
    }
}

/// Reads `show-prompt <prompt_id> [--commit <rev>] [--offset <n>]`;
/// `--commit` and `--offset` exclude each other.
pub fn parse_args(args: &[String]) -> (r: Result<ParsedArgs, String>)
    ensures
        match r {
            Ok(p) => show_scan(arg_views(args@), 0, None, None, None) == Some(
                (p.prompt_id@, opt_view(p.commit), p.offset as int),
            ),
            Err(_) => show_scan(arg_views(args@), 0, None, None, None) is None,
        },
{
    let ghost all = arg_views(args@);
    let mut prompt_id: Option<String> = None;
    let mut commit: Option<String> = None;
    let mut offset: Option<usize> = None;
    let mut i: usize = 0;
    while i < args.len()
        invariant
            0 <= i <= args@.len(),
            all == arg_views(args@),
            show_scan(all, 0, None, None, None) == show_scan(
                all,
                i as int,
                opt_view(prompt_id),
                opt_view(commit),
                opt_int(offset),
            ),
        decreases args@.len() - i,
    {
        proof {
            reveal_strlit("--commit");
            reveal_strlit("--offset");
        }
        let arg = &args[i];
        assert(all[i as int] == arg@);
        if crate::text::str_eq(arg.as_str(), "--commit") {
            if i + 1 >= args.len() {
                return Err("--commit requires a value".to_string());
            }
            commit = Some(args[i + 1].clone());
            assert(all[i + 1] == args@[i + 1]@);
            i = i + 2;
        } else if crate::text::str_eq(arg.as_str(), "--offset") {
            if i + 1 >= args.len() {
                return Err("--offset requires a value".to_string());
            }
            let value = crate::text::chars_of(args[i + 1].as_str());
            assert(all[i + 1] == args@[i + 1]@);
            match crate::text::parse_usize(&value) {
                Some(n) => {
                    offset = Some(n);
                },
                None => {
                    return Err("--offset must be a non-negative integer".to_string());
                },
            }
            i = i + 2;
        } else {
            let cs = crate::text::chars_of(arg.as_str());
            if cs.len() > 0 && cs[0] == '-' {
                return Err("unknown option".to_string());
            }
            if prompt_id.is_some() {
                return Err("Only one prompt ID can be specified".to_string());
            }
            prompt_id = Some(arg.clone());
            i = i + 1;
        }
    }
    match prompt_id {
        Some(p) => {
            if commit.is_some() && offset.is_some() {
                return Err("--commit and --offset are mutually exclusive".to_string());
            }
            Ok(
                ParsedArgs {
                    prompt_id: p,
                    commit,
                    offset: match offset {
                        Some(o) => o,
                        None => 0,
                    },
                },
            )
        },
        None => Err("show-prompt requires a prompt ID".to_string()),
    }
}

} // verus!
