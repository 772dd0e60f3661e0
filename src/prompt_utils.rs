use vstd::prelude::*;

use crate::authorship_log::{AuthorshipLog, PromptRecord};
use crate::error::GitAiError;
use crate::str_map::{has_key, lookup};

verus! {

/// Whether a loaded log holds a prompt record for `id`.
pub open spec fn holds_prompt(log: Option<AuthorshipLog>, id: Seq<char>) -> bool {
    match log {
        Some(l) => has_key(l.metadata.prompts@, id),
        None => false,
    }
}

/// The positions, in order, of the candidates whose log holds `id`.
pub open spec fn occurrences(cands: Seq<(String, Option<AuthorshipLog>)>, id: Seq<char>) -> Seq<int>
    decreases cands.len(),
{
    if cands.len() == 0 {
        Seq::empty()
    } else {
        let rest = occurrences(cands.drop_last(), id);
        if holds_prompt(cands.last().1, id) {
            rest.push(cands.len() - 1)
        } else {
            rest
        }
    }
}

/// The prompt record for `prompt_id` in the log of one commit (`None`
/// when the commit has no authorship log).
pub fn find_prompt_in_commit(
    commit_sha: &String,
    log: Option<&AuthorshipLog>,
    prompt_id: &str,
) -> (r: Result<(String, PromptRecord), GitAiError>)
    ensures
        match log {
            None => r is Err,
            Some(l) => match lookup(l.metadata.prompts@, prompt_id@) {
                Some(rec) => r matches Ok((sha, found)) && sha == *commit_sha && found.same_as(rec),
                None => r is Err,
            },
        },
{
    match log {
        None => Err(GitAiError::Missing("No authorship data found for commit".to_string())),
        Some(l) => match l.metadata.prompts.get(prompt_id) {
            Some(rec) => Ok((commit_sha.clone(), rec.copy())),
            None => Err(GitAiError::Missing("Prompt not found in commit".to_string())),
        },
    }
}

/// Among commits listed newest first, each with its authorship log if it
/// has one, the record of `prompt_id` from the `offset`-th commit (from 0)
/// whose log holds it.
pub fn find_prompt_in_history(
    candidates: &[(String, Option<AuthorshipLog>)],
    prompt_id: &str,
    offset: usize,
) -> (r: Result<(String, PromptRecord), GitAiError>)
    ensures
        offset < occurrences(candidates@, prompt_id@).len() ==> {
            let k = occurrences(candidates@, prompt_id@)[offset as int];
            &&& r matches Ok((sha, found))
            &&& 0 <= k < candidates@.len()
            &&& sha == candidates@[k].0
            &&& holds_prompt(candidates@[k].1, prompt_id@)
            &&& found.same_as(lookup(candidates@[k].1->Some_0.metadata.prompts@, prompt_id@)->Some_0)
        },
        offset >= occurrences(candidates@, prompt_id@).len() ==> r is Err,
{
    let mut found_count: usize = 0;
    let mut i: usize = 0;
    while i < candidates.len()
        invariant
            0 <= i <= candidates@.len(),
            found_count <= offset,
            found_count == occurrences(candidates@.subrange(0, i as int), prompt_id@).len(),
            forall|q: int|
                0 <= q < occurrences(candidates@.subrange(0, i as int), prompt_id@).len() ==> 0 <= #[trigger] occurrences(
                    candidates@.subrange(0, i as int),
                    prompt_id@,
                )[q] < i,
        decreases candidates@.len() - i,
    {
        let ghost pre = candidates@.subrange(0, i as int);
        assert(candidates@.subrange(0, i + 1).drop_last() =~= pre);
        assert(candidates@.subrange(0, i + 1).last() == candidates@[i as int]);
        if let Some(log) = &candidates[i].1 {
            if let Some(rec) = log.metadata.prompts.get(prompt_id) {
                assert(has_key(log.metadata.prompts@, prompt_id@));
                if found_count == offset {
                    proof {
                        lemma_occurrences_prefix(candidates@, prompt_id@, i as int + 1);
                    }
                    return Ok((candidates[i].0.clone(), rec.copy()));
                }
                found_count = found_count + 1;
            } else {
                assert(!has_key(log.metadata.prompts@, prompt_id@));
            }
        }
        i = i + 1;
    }
    assert(candidates@.subrange(0, candidates@.len() as int) =~= candidates@);
    Err(GitAiError::Missing("Prompt not found in history at that offset".to_string()))
}

proof fn lemma_occurrences_prefix(cands: Seq<(String, Option<AuthorshipLog>)>, id: Seq<char>, n: int)
    requires
        0 <= n <= cands.len(),
    ensures
        occurrences(cands, id).len() >= occurrences(cands.subrange(0, n), id).len(),
        forall|q: int|
            0 <= q < occurrences(cands.subrange(0, n), id).len() ==> #[trigger] occurrences(cands, id)[q]
                == occurrences(cands.subrange(0, n), id)[q],
    decreases cands.len() - n,
{
    if n < cands.len() {
        lemma_occurrences_prefix(cands, id, n + 1);
        assert(cands.subrange(0, n + 1).drop_last() =~= cands.subrange(0, n));
    } else {
        assert(cands.subrange(0, n) =~= cands);
    }
}

} // verus!
