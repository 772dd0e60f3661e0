use vstd::prelude::*;

verus! {

/// Arguments of `share`: a prompt id and an optional title.
#[derive(Debug, Clone, PartialEq, Eq)]
pub struct ParsedArgs {
    pub prompt_id: String,
    pub title: Option<String>,
}

/// An optional string as characters.
pub open spec fn opt_view(o: Option<String>) -> Option<Seq<char>> {
    match o {
        Some(s) => Some(s@),
        None => None,
    }
}

/// The arguments as character strings.
pub open spec fn arg_views(args: Seq<String>) -> Seq<Seq<char>> {
    args.map_values(|a: String| a@)
}

/// Reads `args` from position `i` on, with what was read so far: the
/// prompt id and title, or the message of the first rejected argument.
pub open spec fn share_scan(
    args: Seq<Seq<char>>,
    i: int,
    prompt: Option<Seq<char>>,
    title: Option<Seq<char>>,
) -> Result<(Seq<char>, Option<Seq<char>>), Seq<char>>
    decreases args.len() - i,
{
    if i < 0 || i >= args.len() {
        match prompt {
            Some(p) => Ok((p, title)),
            None => Err("share requires a prompt ID"@),
        }
    } else if args[i] == "--title"@ {
        if i + 1 >= args.len() {
            Err("--title requires a value"@)
        } else {
            share_scan(args, i + 2, prompt, Some(args[i + 1]))
        }
    } else if args[i].len() > 0 && args[i][0] == '-' {
        Err("Unknown option: "@ + args[i])
    } else if prompt is Some {
        Err("Only one prompt ID can be specified"@)
    } else {
        share_scan(args, i + 1, Some(args[i]), title)
    }
}

/// Reads `share <prompt_id> [--title <title>]`.
pub fn parse_args(args: &[String]) -> (r: Result<ParsedArgs, String>)
    ensures
        match r {
            Ok(p) => share_scan(arg_views(args@), 0, None, None) == Ok::<(Seq<char>, Option<Seq<char>>), Seq<char>>(
                (p.prompt_id@, opt_view(p.title)),
            ),
            Err(m) => share_scan(arg_views(args@), 0, None, None) == Err::<(Seq<char>, Option<Seq<char>>), Seq<char>>(m@),
        },
{
    let ghost all = arg_views(args@);
    let mut prompt_id: Option<String> = None;
    let mut title: Option<String> = None;
    let mut i: usize = 0;
    while i < args.len()
        invariant
            0 <= i <= args@.len(),
            all == arg_views(args@),
            share_scan(all, 0, None, None) == share_scan(
                all,
                i as int,
                opt_view(prompt_id),
                opt_view(title),
            ),
        decreases args@.len() - i,
    {
        proof {
            reveal_strlit("--title");
            reveal_strlit("share requires a prompt ID");
            reveal_strlit("--title requires a value");
            reveal_strlit("Unknown option: ");
            reveal_strlit("Only one prompt ID can be specified");
        }
        let arg = &args[i];
        assert(all[i as int] == arg@);
        if crate::text::str_eq(arg.as_str(), "--title") {
            if i + 1 >= args.len() {
                return Err("--title requires a value".to_string());
            }
            title = Some(args[i + 1].clone());
            assert(all[i + 1] == args@[i + 1]@);
            i = i + 2;
        } else {
            let cs = crate::text::chars_of(arg.as_str());
            if cs.len() > 0 && cs[0] == '-' {
                let mut m: Vec<char> = Vec::new();
                crate::text::push_str(&mut m, "Unknown option: ");
                crate::text::push_str(&mut m, arg.as_str());
                return Err(crate::text::string_of(&m));
            }
            if prompt_id.is_some() {
                return Err("Only one prompt ID can be specified".to_string());
            }
            prompt_id = Some(arg.clone());
            i = i + 1;
        }
    }
    match prompt_id {
        Some(p) => Ok(ParsedArgs { prompt_id: p, title }),
        None => Err("share requires a prompt ID".to_string()),
    }
}

} // verus!
