//! Target identity: the `project:task` pair addressing one task.

use crate::errors::TargetError;
use vstd::prelude::*;
use vstd::string::{StrSliceExecFns, StringExecFns};

verus! {

/// Mathematical image of a [`Target`].
pub struct TargetView {
    pub id: Seq<char>,
    pub project_id: Seq<char>,
    pub task_id: Seq<char>,
}

/// Addresses one task of one project. Two targets are equal exactly when
/// both components match; `id` is the textual `project:task` form.
pub struct Target {
    pub id: String,
    pub project_id: String,
    pub task_id: String,
}

impl View for Target {
    type V = TargetView;

    open spec fn view(&self) -> TargetView {
        TargetView { id: self.id@, project_id: self.project_id@, task_id: self.task_id@ }
    }
}

/// An identifier usable as one side of a target: non-empty, free of the
/// `:` separator and of `"` (which graph rendering reserves for quoting).
pub open spec fn valid_id_chars(s: Seq<char>) -> bool {
    s.len() > 0 && forall|i: int| 0 <= i < s.len() ==> s[i] != ':' && s[i] != '"'
}

/// The textual form of a target built from its two components.
pub open spec fn target_str(p: Seq<char>, t: Seq<char>) -> Seq<char> {
    p + seq![':'] + t
}

/// `k` marks the separator of a well-formed target text `s`.
pub open spec fn is_target_split(s: Seq<char>, k: int) -> bool {
    &&& 0 <= k < s.len()
    &&& s[k] == ':'
    &&& valid_id_chars(s.take(k))
    &&& valid_id_chars(s.skip(k + 1))
}

/// The text is of the `project:task` form.
pub open spec fn valid_target_chars(s: Seq<char>) -> bool {
    exists|k: int| is_target_split(s, k)
}

/// A target value that is internally consistent.
pub open spec fn target_wf(t: TargetView) -> bool {
    &&& valid_id_chars(t.project_id)
    &&& valid_id_chars(t.task_id)
    &&& t.id == target_str(t.project_id, t.task_id)
}

impl Clone for Target {
    fn clone(&self) -> (res: Self)
        ensures
            res@ == self@,
    {
        Target {
            id: self.id.clone(),
            project_id: self.project_id.clone(),
            task_id: self.task_id.clone(),
        }
    }
}

/// Whether `s` can stand as a project or task identifier.
pub fn is_valid_id(s: &str) -> (r: bool)
    ensures
        r == valid_id_chars(s@),
{
    let n = s.unicode_len();
    if n == 0 {
        return false;
    }
    let mut i: usize = 0;
    while i < n
        invariant
            i <= n,
            n == s@.len(),
            forall|k: int| 0 <= k < i ==> s@[k] != ':' && s@[k] != '"',
        decreases n - i,
    {
        let c = s.get_char(i);
        if c == ':' || c == '"' {
            return false;
        }
        i = i + 1;
    }
    true
}

/// Builds the `project:task` text.
pub(crate) fn make_target_id(p: &str, t: &str) -> (r: String)
    ensures
        r@ == target_str(p@, t@),
{
    proof {
        reveal_strlit(":");
    }
    let mut s = String::from_str(p);
    s.append(":");
    s.append(t);
    proof {
        assert(s@ =~= target_str(p@, t@));
    }
    s
}

impl Target {
    /// Forms the target for `project_id` and `task_id`, rejecting malformed
    /// identifiers.
    pub fn new(project_id: &str, task_id: &str) -> (r: Result<Target, TargetError>)
        ensures
            r is Ok <==> (valid_id_chars(project_id@) && valid_id_chars(task_id@)),
            r is Ok ==> r->Ok_0@ == (TargetView {
                id: target_str(project_id@, task_id@),
                project_id: project_id@,
                task_id: task_id@,
            }),
            r is Ok ==> target_wf(r->Ok_0@),
    {
        if !is_valid_id(project_id) || !is_valid_id(task_id) {
            return Err(TargetError::InvalidFormat(make_target_id(project_id, task_id)));
        }
        Ok(
            Target {
                id: make_target_id(project_id, task_id),
                project_id: String::from_str(project_id),
                task_id: String::from_str(task_id),
            },
        )
    }

    /// Reads a `project:task` text back into a target; accepts exactly the
    /// texts that [`Target::new`] produces.
    pub fn parse(target_id: &str) -> (r: Result<Target, TargetError>)
        ensures
            r is Ok <==> valid_target_chars(target_id@),
            r is Ok ==> r->Ok_0@.id == target_id@ && target_wf(r->Ok_0@),
    {
        let n = target_id.unicode_len();
        let mut k: usize = 0;
        let mut found = false;
        while k < n && !found
            invariant
                k <= n,
                n == target_id@.len(),
                found ==> k < n && target_id@[k as int] == ':',
                forall|j: int| 0 <= j < k ==> target_id@[j] != ':',
            decreases n - k, (if found { 0int } else { 1int }),
        {
            if target_id.get_char(k) == ':' {
                found = true;
            } else {
                k = k + 1;
            }
        }
        if !found {
            proof {
                assert forall|kk: int| !is_target_split(target_id@, kk) by {
                    if 0 <= kk < target_id@.len() {
                        assert(target_id@[kk] != ':');
                    }
                }
            }
            return Err(TargetError::InvalidFormat(String::from_str(target_id)));
        }
        let p = target_id.substring_char(0, k);
        let t = target_id.substring_char(k + 1, n);
        proof {
            assert(p@ =~= target_id@.take(k as int));
            assert(t@ =~= target_id@.skip(k as int + 1));
        }
        if is_valid_id(p) && is_valid_id(t) {
            proof {
                assert(is_target_split(target_id@, k as int));
                assert(target_id@ =~= target_str(p@, t@));
            }
            Ok(
                Target {
                    id: String::from_str(target_id),
                    project_id: String::from_str(p),
                    task_id: String::from_str(t),
                },
            )
        } else {
            proof {
                assert forall|kk: int| !is_target_split(target_id@, kk) by {
                    if 0 <= kk < target_id@.len() && target_id@[kk] == ':' {
                        if kk < k as int {
                        } else if kk == k as int {
                            assert(!valid_id_chars(target_id@.take(kk)) || !valid_id_chars(
                                target_id@.skip(kk + 1),
                            ));
                        } else {
                            assert(target_id@.take(kk)[k as int] == ':');
                            assert(!valid_id_chars(target_id@.take(kk)));
                        }
                    }
                }
            }
            Err(TargetError::InvalidFormat(String::from_str(target_id)))
        }
    }
}

/// Reading back the text formed from two well-formed identifiers recovers
/// exactly those identifiers: the textual form round-trips losslessly.
pub proof fn lemma_target_round_trip(p: Seq<char>, t: Seq<char>)
    requires
        valid_id_chars(p),
        valid_id_chars(t),
    ensures
        is_target_split(target_str(p, t), p.len() as int),
        target_str(p, t).take(p.len() as int) == p,
        target_str(p, t).skip(p.len() as int + 1) == t,
        valid_target_chars(target_str(p, t)),
        forall|k: int| is_target_split(target_str(p, t), k) ==> k == p.len() as int,
{
    let s = target_str(p, t);
    assert(s.take(p.len() as int) =~= p);
    assert(s.skip(p.len() as int + 1) =~= t);
    assert(is_target_split(s, p.len() as int));
    assert forall|k: int| is_target_split(s, k) implies k == p.len() as int by {
        if k < p.len() {
            assert(s[k] == p[k]);
        } else if k > p.len() {
            assert(s.take(k)[p.len() as int] == ':');
        }
    }
}

} // verus!
