//! Plain rules of the update pipeline that consumes a plan: how the policy
//! service is addressed and how its answer is read, and under which key the
//! state of an update is stored.
use crate::aln::lexer::chars_of;
use vstd::prelude::*;
use vstd::string::*;

verus! {

/// The prefix under which the state of an update is stored.
pub const STATE_KEY_PREFIX: &'static str = "aln_update_state_1.0.1.7:";

/// The path under which the policy service serves its data documents.
pub const POLICY_DATA_PATH: &'static str = "/v1/data/";

/// `s` without the slashes at its end.
pub open spec fn without_trailing_slashes(s: Seq<char>) -> Seq<char>
    decreases s.len(),
{
    if s.len() > 0 && s.last() == '/' {
        without_trailing_slashes(s.drop_last())
    } else {
        s
    }
}

/// The address of the policy document `path` at the service `base_url`:
/// the base without the slashes at its end, `/v1/data/`, and the path.
pub open spec fn policy_url_spec(base_url: Seq<char>, path: Seq<char>) -> Seq<char> {
    without_trailing_slashes(base_url) + POLICY_DATA_PATH@ + path
}

/// The address of the policy document `path` at the service `base_url`.
pub fn policy_url(base_url: &str, path: &str) -> (r: String)
    ensures
        r@ == policy_url_spec(base_url@, path@),
{
    let cs = chars_of(base_url);
    let mut end: usize = cs.len();
    assert(cs@.take(end as int) =~= cs@);
    while end > 0 && cs[end - 1] == '/'
        invariant
            end <= cs@.len(),
            without_trailing_slashes(cs@) == without_trailing_slashes(cs@.take(end as int)),
        decreases end,
    {
        assert(cs@.take(end as int).drop_last() =~= cs@.take(end - 1));
        end = end - 1;
    }
    let mut out = String::new();
    let mut i: usize = 0;
    while i < end
        invariant
            i <= end <= cs@.len(),
            out@ == cs@.take(i as int),
        decreases end - i,
    {
        out.push(cs[i]);
        i = i + 1;
        assert(out@ =~= cs@.take(i as int));
    }
    out.append(POLICY_DATA_PATH);
    out.append(path);
    out
}

/// What the policy service answered under `result`.
#[derive(Debug, Clone, Copy, PartialEq, Eq)]
pub enum PolicyResult {
    /// The answer holds no `result`.
    Missing,
    /// The `result` is a boolean.
    Flag(bool),
    /// The `result` is something else.
    Other,
}

/// Whether the answer allows the update: it does if the service gave no
/// result or the result `true`.
pub open spec fn allows(result: PolicyResult) -> bool {
    result == PolicyResult::Missing || result == PolicyResult::Flag(true)
}

/// Whether the answer allows the update.
pub fn is_allowed(result: PolicyResult) -> (r: bool)
    ensures
        r == allows(result),
{
    match result {
        PolicyResult::Missing => true,
        PolicyResult::Flag(flag) => flag,
        PolicyResult::Other => false,
    }
}

/// The key under which the state of the update `token_id` is stored.
pub fn state_key(token_id: &str) -> (r: String)
    ensures
        r@ == STATE_KEY_PREFIX@ + token_id@,
{
    let mut out = String::from_str(STATE_KEY_PREFIX);
    out.append(token_id);
    out
}

} // verus!
