//! Admission of request methods against an allow-set and a deny-set.
//!
//! Each set is optional and built once from a comma-separated
//! configuration string; entries are trimmed and uppercased, blank
//! entries are skipped, and a list with no usable entry counts as not
//! configured at all.  A method is rejected exactly when the deny-set
//! names it, or an allow-set is configured that does not.

use vstd::prelude::*;

use crate::ascii::{bytes_eq, to_upper, tokenize, tokens, trim, trim_bytes, upper};

verus! {

/// Membership of a byte string in a list of byte strings.
pub open spec fn set_contains(ts: Seq<Seq<u8>>, m: Seq<u8>) -> bool {
    exists|k: int| 0 <= k < ts.len() && ts[k] == m
}

/// No byte string occurs twice in the list.
pub open spec fn distinct(ts: Seq<Seq<u8>>) -> bool {
    forall|i: int, j: int| 0 <= i < j < ts.len() ==> ts[i] != ts[j]
}

/// Among the first `n` comma-separated entries of `s`, some entry
/// trims to something non-empty whose uppercase form is `m`.
pub open spec fn config_hit_upto(s: Seq<u8>, n: int, m: Seq<u8>) -> bool {
    exists|k: int|
        0 <= k < n && k < tokens(s, 44).len() && trim(#[trigger] tokens(s, 44)[k]).len() > 0
            && upper(trim(tokens(s, 44)[k])) == m
}

/// `m` is one of the configured method names of the list `s`: some
/// comma-separated entry of `s` trims to something non-empty whose
/// uppercase form is `m`.
pub open spec fn method_in_config(s: Seq<u8>, m: Seq<u8>) -> bool {
    config_hit_upto(s, tokens(s, 44).len() as int, m)
}

/// Extending the scanned prefix by one entry adds exactly that
/// entry's name, if it has one.
proof fn lemma_hit_step(s: Seq<u8>, n: int, m: Seq<u8>)
    requires
        0 <= n < tokens(s, 44).len(),
    ensures
        config_hit_upto(s, n + 1, m) == (config_hit_upto(s, n, m) || (trim(
            tokens(s, 44)[n],
        ).len() > 0 && upper(trim(tokens(s, 44)[n])) == m)),
{
    if config_hit_upto(s, n + 1, m) {
        let k = choose|k: int|
            0 <= k < n + 1 && k < tokens(s, 44).len() && trim(#[trigger] tokens(s, 44)[k]).len()
                > 0 && upper(trim(tokens(s, 44)[k])) == m;
        if k < n {
            assert(config_hit_upto(s, n, m));
        }
    }
    if config_hit_upto(s, n, m) {
        let k = choose|k: int|
            0 <= k < n && k < tokens(s, 44).len() && trim(#[trigger] tokens(s, 44)[k]).len() > 0
                && upper(trim(tokens(s, 44)[k])) == m;
        assert(config_hit_upto(s, n + 1, m));
    }
    if trim(tokens(s, 44)[n]).len() > 0 && upper(trim(tokens(s, 44)[n])) == m {
        assert(config_hit_upto(s, n + 1, m));
    }
}

/// Pushing one name onto a list adds exactly that name to its
/// membership.
proof fn lemma_contains_push(ts: Seq<Seq<u8>>, x: Seq<u8>, m: Seq<u8>)
    ensures
        set_contains(ts.push(x), m) == (set_contains(ts, m) || m == x),
{
    if set_contains(ts, m) {
        let k = choose|k: int| 0 <= k < ts.len() && ts[k] == m;
        assert(ts.push(x)[k] == m);
    }
    assert(ts.push(x)[ts.len() as int] == x);
    if set_contains(ts.push(x), m) {
        let k = choose|k: int| 0 <= k < ts.push(x).len() && ts.push(x)[k] == m;
        if k < ts.len() {
            assert(ts[k] == m);
        }
    }
}

/// `true` exactly when `m@` occurs in the list.
fn contains_tok(set: &Vec<Vec<u8>>, m: &[u8]) -> (r: bool)
    ensures
        r == set_contains(set.deep_view(), m@),
{
    let mut k: usize = 0;
    while k < set.len()
        invariant
            0 <= k <= set.len(),
            forall|t: int| 0 <= t < k ==> set.deep_view()[t] != m@,
        decreases set.len() - k,
    {
        proof {
            assert(set.deep_view()[k as int] =~= set@[k as int]@);
        }
        if bytes_eq(set[k].as_slice(), m) {
            return true;
        }
        k = k + 1;
    }
    false
}

/// Builds the set of method names a configuration list names: each
/// comma-separated entry trimmed and uppercased, blanks skipped,
/// duplicates kept once.  A list with no usable entry yields `None`,
/// which means "not configured" rather than an empty set.
pub fn parse_methods(s: &[u8]) -> (r: Option<Vec<Vec<u8>>>)
    ensures
        r is None <==> (forall|k: int|
            0 <= k < tokens(s@, 44).len() ==> trim(#[trigger] tokens(s@, 44)[k]).len() == 0),
        r matches Some(v) ==> distinct(v.deep_view()) && (forall|m: Seq<u8>|
            set_contains(v.deep_view(), m) == method_in_config(s@, m)),
{
    let toks = tokenize(s, 44);
    let mut set: Vec<Vec<u8>> = Vec::new();
    let mut i: usize = 0;
    while i < toks.len()
        invariant
            0 <= i <= toks.len(),
            toks.deep_view() == tokens(s@, 44),
            distinct(set.deep_view()),
            forall|m: Seq<u8>| set_contains(set.deep_view(), m) == config_hit_upto(s@, i as int, m),
        decreases toks.len() - i,
    {
        proof {
            assert(toks.deep_view()[i as int] =~= toks@[i as int]@);
        }
        let ghost toki = tokens(s@, 44)[i as int];
        let t = trim_bytes(toks[i].as_slice());
        if t.len() > 0 {
            let u = to_upper(t.as_slice());
            let ghost u_view = u@;
            if !contains_tok(&set, u.as_slice()) {
                let ghost old_deep = set.deep_view();
                set.push(u);
                proof {
                    assert(set.deep_view() =~~= old_deep.push(u_view));
                    assert forall|q: int, r: int|
                        0 <= q < r < set.deep_view().len() implies set.deep_view()[q]
                        != set.deep_view()[r] by {
                        if r == old_deep.len() {
                            assert(set_contains(old_deep, set.deep_view()[q])
                                == set_contains(old_deep, old_deep[q]));
                            assert(set_contains(old_deep, old_deep[q]));
                        }
                    }
                    assert forall|m: Seq<u8>|
                        set_contains(set.deep_view(), m) == config_hit_upto(
                        s@,
                        i as int + 1,
                        m,
                    ) by {
                        lemma_contains_push(old_deep, u_view, m);
                        lemma_hit_step(s@, i as int, m);
                    }
                }
            } else {
                proof {
                    assert forall|m: Seq<u8>|
                        set_contains(set.deep_view(), m) == config_hit_upto(
                        s@,
                        i as int + 1,
                        m,
                    ) by {
                        lemma_hit_step(s@, i as int, m);
                    }
                }
            }
        } else {
            proof {
                assert forall|m: Seq<u8>|
                    set_contains(set.deep_view(), m) == config_hit_upto(s@, i as int + 1, m) by {
                    lemma_hit_step(s@, i as int, m);
                }
            }
        }
        i = i + 1;
    }
    if set.len() == 0 {
        proof {
            assert forall|k: int|
                0 <= k < tokens(s@, 44).len() implies trim(
                #[trigger] tokens(s@, 44)[k],
            ).len() == 0 by {
                if trim(tokens(s@, 44)[k]).len() > 0 {
                    let m = upper(trim(tokens(s@, 44)[k]));
                    assert(config_hit_upto(s@, toks.deep_view().len() as int, m));
                    assert(set_contains(set.deep_view(), m));
                }
            }
        }
        None
    } else {
        proof {
            let m0 = set.deep_view()[0];
            assert(set_contains(set.deep_view(), m0));
            assert(config_hit_upto(s@, tokens(s@, 44).len() as int, m0));
            let k0 = choose|k: int|
                0 <= k < tokens(s@, 44).len() && k < tokens(s@, 44).len() && trim(
                    #[trigger] tokens(s@, 44)[k],
                ).len() > 0 && upper(trim(tokens(s@, 44)[k])) == m0;
            assert(trim(tokens(s@, 44)[k0]).len() > 0);
        }
        Some(set)
    }
}

/// The shared, read-only admission configuration: an optional
/// allow-set and an optional deny-set of uppercase method names.
pub struct MethodPolicy {
    pub allow: Option<Vec<Vec<u8>>>,
    pub deny: Option<Vec<Vec<u8>>>,
}

impl MethodPolicy {
    /// The admission rule: reject when the deny-set names the method,
    /// or when an allow-set is configured that does not; allow
    /// otherwise.  An absent set imposes no restriction.
    pub open spec fn allows(&self, m: Seq<u8>) -> bool {
        let denied = match self.deny {
            Some(d) => set_contains(d.deep_view(), m),
            None => false,
        };
        let outside_allow = match self.allow {
            Some(a) => !set_contains(a.deep_view(), m),
            None => false,
        };
        !(denied || outside_allow)
    }

    /// A policy with neither set configured; it admits every method.
    pub fn unrestricted() -> (r: Self)
        ensures
            r.allow is None,
            r.deny is None,
            forall|m: Seq<u8>| r.allows(m),
    {
        MethodPolicy { allow: None, deny: None }
    }

    /// Decides admission of one method name.
    pub fn is_allowed(&self, method: &[u8]) -> (r: bool)
        ensures
            r == self.allows(method@),
    {
        let denied = match &self.deny {
            Some(d) => contains_tok(d, method),
            None => false,
        };
        if denied {
            return false;
        }
        match &self.allow {
            Some(a) => contains_tok(a, method),
            None => true,
        }
    }
}

} // verus!
