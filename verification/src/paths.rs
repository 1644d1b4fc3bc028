//! Resolution of untrusted archive-relative paths onto a destination root.
//!
//! A declared path is split on `/`, `.` and empty components are dropped,
//! and `..` pops the component it cancels. A path is rejected when it is
//! empty, absolute, resolves to the root itself, or would traverse above
//! the root. A successful resolution is a non-empty list of plain
//! components, each free of separators and of the special names, so that
//! joining them under any root stays strictly inside that root.

use vstd::prelude::*;

verus! {

/// Components of `p` split on `/`, scanning from index `i` with `cur` the
/// partial component read so far.
pub open spec fn split_from(p: Seq<u8>, i: int, cur: Seq<u8>) -> Seq<Seq<u8>>
    decreases p.len() - i when 0 <= i <= p.len()
{
    if i >= p.len() {
        seq![cur]
    } else if p[i] == 47 {
        seq![cur] + split_from(p, i + 1, seq![])
    } else {
        split_from(p, i + 1, cur.push(p[i]))
    }
}

/// The raw components of a path: maximal runs of bytes between `/`
/// separators, in order. Empty runs are kept here and dropped during
/// normalization.
pub open spec fn path_components(p: Seq<u8>) -> Seq<Seq<u8>> {
    split_from(p, 0, seq![])
}

/// Stack normalization of raw components, scanning from index `i`:
/// empty and `.` components vanish, `..` pops the top of `stack`, and a
/// `..` that finds the stack empty would climb above the root, so the
/// whole path is rejected.
pub open spec fn normalize_from(comps: Seq<Seq<u8>>, i: int, stack: Seq<Seq<u8>>) -> Option<
    Seq<Seq<u8>>,
>
    decreases comps.len() - i when 0 <= i <= comps.len()
{
    if i >= comps.len() {
        Some(stack)
    } else {
        let c = comps[i];
        if c.len() == 0 || c == seq![46u8] {
            normalize_from(comps, i + 1, stack)
        } else if c == seq![46u8, 46u8] {
            if stack.len() == 0 {
                None
            } else {
                normalize_from(comps, i + 1, stack.drop_last())
            }
        } else {
            normalize_from(comps, i + 1, stack.push(c))
        }
    }
}

/// What a declared archive path resolves to under the destination root:
/// `None` when the path is empty, absolute, climbs above the root, or
/// normalizes to the root itself; otherwise the normalized components.
pub open spec fn resolve_spec(p: Seq<u8>) -> Option<Seq<Seq<u8>>> {
    if p.len() == 0 {
        None
    } else if p[0] == 47 {
        None
    } else {
        match normalize_from(path_components(p), 0, seq![]) {
            None => None,
            Some(st) => if st.len() == 0 {
                None
            } else {
                Some(st)
            },
        }
    }
}

/// A component that cannot move the joined path out of its parent: it is
/// non-empty, names neither the current nor the parent directory, and
/// holds no separator.
pub open spec fn component_ok(c: Seq<u8>) -> bool {
    &&& c.len() > 0
    &&& c != seq![46u8]
    &&& c != seq![46u8, 46u8]
    &&& forall|k: int| 0 <= k < c.len() ==> c[k] != 47
}

/// A resolved target is confined: joining its components under the
/// destination root yields a strict descendant of the root.
pub open spec fn confined(t: Seq<Seq<u8>>) -> bool {
    &&& t.len() > 0
    &&& forall|j: int| 0 <= j < t.len() ==> component_ok(#[trigger] t[j])
}

proof fn lemma_split_no_slash(p: Seq<u8>, i: int, cur: Seq<u8>)
    requires
        0 <= i <= p.len(),
        forall|k: int| 0 <= k < cur.len() ==> cur[k] != 47,
    ensures
        forall|j: int, k: int|
            0 <= j < split_from(p, i, cur).len() && 0 <= k < split_from(p, i, cur)[j].len()
                ==> #[trigger] split_from(p, i, cur)[j][k] != 47,
    decreases p.len() - i,
{
    if i >= p.len() {
        let s = split_from(p, i, cur);
        assert forall|j: int, k: int| 0 <= j < s.len() && 0 <= k < s[j].len() implies #[trigger] s[j][k]
            != 47 by {
            assert(s == seq![cur]);
            assert(s[j] == cur);
            assert(cur[k] != 47);
        }
    } else if p[i] == 47 {
        lemma_split_no_slash(p, i + 1, seq![]);
        let s = split_from(p, i, cur);
        let rest = split_from(p, i + 1, seq![]);
        assert forall|j: int, k: int| 0 <= j < s.len() && 0 <= k < s[j].len() implies #[trigger] s[j][k]
            != 47 by {
            assert(s == seq![cur] + rest);
            if j == 0 {
                assert(s[j] == cur);
                assert(cur[k] != 47);
            } else {
                assert(s[j] == rest[j - 1]);
                assert(rest[j - 1][k] != 47);
            }
        }
    } else {
        assert(forall|k: int| 0 <= k < cur.push(p[i]).len() ==> #[trigger] cur.push(p[i])[k] != 47);
        lemma_split_no_slash(p, i + 1, cur.push(p[i]));
        let s = split_from(p, i, cur);
        let s2 = split_from(p, i + 1, cur.push(p[i]));
        assert(s == s2);
        assert forall|j: int, k: int| 0 <= j < s.len() && 0 <= k < s[j].len() implies #[trigger] s[j][k]
            != 47 by {
            assert(s2[j][k] != 47);
        }
    }
}

proof fn lemma_normalize_ok(comps: Seq<Seq<u8>>, i: int, stack: Seq<Seq<u8>>)
    requires
        0 <= i <= comps.len(),
        forall|j: int, k: int|
            0 <= j < comps.len() && 0 <= k < comps[j].len() ==> #[trigger] comps[j][k] != 47,
        forall|j: int| 0 <= j < stack.len() ==> component_ok(#[trigger] stack[j]),
        normalize_from(comps, i, stack) is Some,
    ensures
        forall|j: int|
            0 <= j < normalize_from(comps, i, stack).unwrap().len() ==> component_ok(
                #[trigger] normalize_from(comps, i, stack).unwrap()[j],
            ),
    decreases comps.len() - i,
{
    if i >= comps.len() {
    } else {
        let c = comps[i];
        if c.len() == 0 || c == seq![46u8] {
            lemma_normalize_ok(comps, i + 1, stack);
        } else if c == seq![46u8, 46u8] {
            lemma_normalize_ok(comps, i + 1, stack.drop_last());
        } else {
            assert(component_ok(c));
            lemma_normalize_ok(comps, i + 1, stack.push(c));
        }
    }
}

/// Containment: whenever an untrusted declared path resolves at all, the
/// target it resolves to is confined to the destination subtree. In
/// particular a path with an escaping parent-directory component or an
/// absolute path either fails to resolve or lands strictly below the
/// root; no resolution ever names the root or anything above it.
pub proof fn lemma_resolve_confined(p: Seq<u8>)
    ensures
        resolve_spec(p) is Some ==> confined(resolve_spec(p).unwrap()),
{
    if resolve_spec(p) is Some {
        lemma_split_no_slash(p, 0, seq![]);
        lemma_normalize_ok(path_components(p), 0, seq![]);
    }
}

/// Splits declared path bytes on `/` into raw components.
fn split_bytes(p: &Vec<u8>) -> (r: Vec<Vec<u8>>)
    ensures
        r.deep_view() == path_components(p@),
{
    let mut out: Vec<Vec<u8>> = Vec::new();
    let mut cur: Vec<u8> = Vec::new();
    let mut i: usize = 0;
    while i < p.len()
        invariant
            i <= p.len(),
            path_components(p@) == out.deep_view() + split_from(p@, i as int, cur@),
        decreases p.len() - i,
    {
        if p[i] == 47 {
            let ghost prev = out.deep_view();
            let ghost done = cur@;
            out.push(cur);
            cur = Vec::new();
            proof {
                assert(out.deep_view() =~~= prev.push(done));
                assert(out.deep_view() + split_from(p@, i + 1, cur@) =~~= prev + split_from(
                    p@,
                    i as int,
                    done,
                ));
            }
        } else {
            let b: u8 = p[i];
            let ghost done = cur@;
            cur.push(b);
            proof {
                assert(split_from(p@, i as int, done) == split_from(p@, i + 1, cur@));
            }
        }
        i = i + 1;
    }
    let ghost prev = out.deep_view();
    let ghost done = cur@;
    out.push(cur);
    proof {
        assert(out.deep_view() =~~= prev.push(done));
        assert(out.deep_view() =~~= prev + split_from(p@, p@.len() as int, done));
    }
    out
}

/// Resolves an untrusted declared path onto the destination root: the
/// normalized target components on success, `None` on a path violation.
pub fn resolve_path(p: &Vec<u8>) -> (r: Option<Vec<Vec<u8>>>)
    ensures
        r is Some <==> resolve_spec(p@) is Some,
        r is Some ==> r.unwrap().deep_view() == resolve_spec(p@).unwrap(),
{
    if p.len() == 0 {
        return None;
    }
    if p[0] == 47 {
        return None;
    }
    let comps = split_bytes(p);
    let ghost pc = path_components(p@);
    let mut stack: Vec<Vec<u8>> = Vec::new();
    let mut i: usize = 0;
    proof {
        assert(stack.deep_view() =~~= Seq::<Seq<u8>>::empty());
    }
    while i < comps.len()
        invariant
            i <= comps.len(),
            comps.deep_view() == pc,
            pc == path_components(p@),
            normalize_from(pc, 0, Seq::<Seq<u8>>::empty()) == normalize_from(
                pc,
                i as int,
                stack.deep_view(),
            ),
        decreases comps.len() - i,
    {
        let c = &comps[i];
        proof {
            assert(c@ == pc[i as int]);
        }
        if c.len() == 0 || (c.len() == 1 && c[0] == 46) {
            proof {
                if c@.len() != 0 {
                    assert(c@ =~= seq![46u8]);
                }
            }
        } else if c.len() == 2 && c[0] == 46 && c[1] == 46 {
            proof {
                assert(c@ =~= seq![46u8, 46u8]);
            }
            if stack.len() == 0 {
                return None;
            }
            let ghost prev = stack.deep_view();
            stack.pop();
            proof {
                assert(stack.deep_view() =~~= prev.drop_last());
            }
        } else {
            proof {
                assert(c@ != seq![46u8]);
                assert(c@ != seq![46u8, 46u8]);
            }
            let ghost prev = stack.deep_view();
            let copy = c.clone();
            proof {
                assert(copy.deep_view() =~= c.deep_view());
            }
            stack.push(copy);
            proof {
                assert(stack.deep_view() =~~= prev.push(c@));
            }
        }
        i = i + 1;
    }
    if stack.len() == 0 {
        return None;
    }
    Some(stack)
}

} // verus!
