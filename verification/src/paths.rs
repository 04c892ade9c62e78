//! Archive paths: normalization to forward-slash, tree-relative form,
//! the parent / ancestor relation on normalized paths, and the 64-bit
//! path hash that is the sole lookup key of the archive.

use vstd::prelude::*;
use vstd::utf8::decode_first_codepoint;
use vstd::utf8::is_continuation_byte;
use vstd::utf8::length_of_first_codepoint;
use vstd::utf8::length_of_first_scalar;
use vstd::utf8::pop_first_scalar;
use vstd::utf8::valid_first_scalar;
use vstd::utf8::valid_leading_and_continuation_bytes_first_codepoint;
use vstd::utf8::valid_utf8;

verus! {

/// A backslash becomes a forward slash; every other byte stays.
pub open spec fn norm_byte(b: u8) -> u8 {
    if b == 92 {
        47
    } else {
        b
    }
}

/// One pass over the input: separators are normalized and a separator is
/// dropped when the output so far is empty or already ends in one.
pub open spec fn norm_core(s: Seq<u8>, acc: Seq<u8>) -> Seq<u8>
    decreases s.len(),
{
    if s.len() == 0 {
        acc
    } else {
        let b = norm_byte(s[0]);
        if b == 47 && (acc.len() == 0 || acc.last() == 47) {
            norm_core(s.skip(1), acc)
        } else {
            norm_core(s.skip(1), acc.push(b))
        }
    }
}

/// The normalized, tree-relative form of an archive path: forward slashes
/// only, no leading or trailing separator, no empty component.
pub open spec fn normalize(s: Seq<u8>) -> Seq<u8> {
    let t = norm_core(s, Seq::empty());
    if t.len() > 0 && t.last() == 47 {
        t.drop_last()
    } else {
        t
    }
}

/// What `normalize` guarantees of its result.
pub open spec fn is_normalized(p: Seq<u8>) -> bool {
    &&& forall|i: int| 0 <= i < p.len() ==> p[i] != 92
    &&& p.len() > 0 ==> p[0] != 47
    &&& p.len() > 0 ==> p.last() != 47
    &&& forall|i: int| 0 <= i < p.len() - 1 ==> !(#[trigger] p[i] == 47 && p[i + 1] == 47)
}

proof fn lemma_norm_core_shape(s: Seq<u8>, acc: Seq<u8>)
    requires
        forall|i: int| 0 <= i < acc.len() ==> acc[i] != 92,
        acc.len() > 0 ==> acc[0] != 47,
        forall|i: int| 0 <= i < acc.len() - 1 ==> !(#[trigger] acc[i] == 47 && acc[i + 1] == 47),
    ensures
        ({
            let t = norm_core(s, acc);
            &&& forall|i: int| 0 <= i < t.len() ==> t[i] != 92
            &&& t.len() > 0 ==> t[0] != 47
            &&& forall|i: int| 0 <= i < t.len() - 1 ==> !(#[trigger] t[i] == 47 && t[i + 1] == 47)
            &&& t.len() >= acc.len()
            &&& t.subrange(0, acc.len() as int) == acc
        }),
    decreases s.len(),
{
    if s.len() == 0 {
        assert(norm_core(s, acc).subrange(0, acc.len() as int) =~= acc);
    } else {
        let b = norm_byte(s[0]);
        if b == 47 && (acc.len() == 0 || acc.last() == 47) {
            lemma_norm_core_shape(s.skip(1), acc);
        } else {
            let acc2 = acc.push(b);
            lemma_norm_core_shape(s.skip(1), acc2);
            let t = norm_core(s, acc);
            assert(t.subrange(0, acc2.len() as int).subrange(0, acc.len() as int) =~= t.subrange(
                0,
                acc.len() as int,
            ));
            assert(t.subrange(0, acc.len() as int) =~= acc);
        }
    }
}

/// The result of `normalize` is normalized.
pub proof fn lemma_normalize_is_normalized(s: Seq<u8>)
    ensures
        is_normalized(normalize(s)),
{
    lemma_norm_core_shape(s, Seq::empty());
    let t = norm_core(s, Seq::<u8>::empty());
    if t.len() > 0 && t.last() == 47 {
        let u = t.drop_last();
        assert(forall|i: int| 0 <= i < u.len() ==> u[i] == t[i]);
        if u.len() > 0 && u.last() == 47 {
            assert(t[t.len() - 2] == 47 && t[t.len() - 1] == 47);
            assert(false);
        }
    }
}

/// Exec normalization, proved to agree with `normalize`.
pub fn normalize_path(path: &[u8]) -> (r: Vec<u8>)
    ensures
        r@ == normalize(path@),
        is_normalized(r@),
{
    let mut out: Vec<u8> = Vec::new();
    let mut i: usize = 0;
    assert(path@.skip(0) =~= path@);
    while i < path.len()
        invariant
            0 <= i <= path.len(),
            norm_core(path@, Seq::empty()) == norm_core(path@.skip(i as int), out@),
        decreases path.len() - i,
    {
        let b = path[i];
        let nb: u8 = if b == 92 {
            47
        } else {
            b
        };
        let drop_it = nb == 47 && (out.len() == 0 || *out.last().unwrap() == 47);
        proof {
            let rest = path@.skip(i as int);
            assert(rest[0] == path@[i as int]);
            assert(rest.skip(1) =~= path@.skip(i as int + 1));
        }
        if !drop_it {
            out.push(nb);
        }
        i = i + 1;
    }
    proof {
        assert(path@.skip(path@.len() as int) =~= Seq::<u8>::empty());
        lemma_normalize_is_normalized(path@);
    }
    if out.len() > 0 {
        let last = *out.last().unwrap();
        if last == 47 {
            out.pop();
            assert(out@ =~= norm_core(path@, Seq::empty()).drop_last());
        }
    }
    out
}

/// The index of the last separator in `p`, or -1 when it has none.
pub open spec fn last_slash(p: Seq<u8>) -> int
    decreases p.len(),
{
    if p.len() == 0 {
        -1
    } else if p.last() == 47 {
        p.len() - 1
    } else {
        last_slash(p.drop_last())
    }
}

/// The parent directory of a path: everything before the last separator,
/// or the root (the empty path) when there is none.
pub open spec fn parent_of(p: Seq<u8>) -> Seq<u8> {
    if last_slash(p) <= 0 {
        Seq::empty()
    } else {
        p.subrange(0, last_slash(p))
    }
}

/// `a` names a directory strictly above `p`: it is a proper prefix of `p`
/// that ends at a component boundary.  The root (the empty path) is an
/// ancestor of every non-empty path.
pub open spec fn is_strict_ancestor(a: Seq<u8>, p: Seq<u8>) -> bool {
    &&& a.len() < p.len()
    &&& p.subrange(0, a.len() as int) == a
    &&& (a.len() == 0 || p[a.len() as int] == 47)
}

/// `last_slash` really is the last: a separator sits there and none after.
pub proof fn lemma_last_slash(p: Seq<u8>)
    ensures
        -1 <= last_slash(p) < p.len(),
        last_slash(p) >= 0 ==> p[last_slash(p)] == 47,
        forall|i: int| last_slash(p) < i < p.len() ==> p[i] != 47,
    decreases p.len(),
{
    if p.len() == 0 {
    } else if p.last() == 47 {
    } else {
        lemma_last_slash(p.drop_last());
        assert(forall|i: int| 0 <= i < p.len() - 1 ==> p[i] == p.drop_last()[i]);
    }
}

/// Exec parent computation, proved to agree with `parent_of`.
pub fn parent_path(p: &[u8]) -> (r: Vec<u8>)
    ensures
        r@ == parent_of(p@),
        r@.len() < p@.len() || p@.len() == 0,
{
    proof {
        lemma_last_slash(p@);
    }
    let mut j: usize = p.len();
    while j > 0
        invariant
            0 <= j <= p.len(),
            forall|i: int| j <= i < p@.len() ==> p@[i] != 47,
        decreases j,
    {
        if p[j - 1] == 47 {
            proof {
                if last_slash(p@) != j - 1 {
                    lemma_last_slash(p@);
                }
            }
            let mut out: Vec<u8> = Vec::new();
            let mut i: usize = 0;
            while i < j - 1
                invariant
                    0 <= i <= j - 1 < p@.len(),
                    out@ == p@.subrange(0, i as int),
                decreases j - 1 - i,
            {
                out.push(p[i]);
                assert(out@ =~= p@.subrange(0, i + 1));
                i = i + 1;
            }
            if j == 1 {
                // a leading separator: the parent is the root
                let empty_out: Vec<u8> = Vec::new();
                assert(empty_out@ =~= parent_of(p@));
                return empty_out;
            }
            assert(out@ =~= parent_of(p@));
            return out;
        }
        j = j - 1;
    }
    let out: Vec<u8> = Vec::new();
    assert(out@ =~= parent_of(p@));
    out
}

/// The parent of a non-empty normalized path is a strict ancestor, is
/// itself normalized, and every strict ancestor is either the parent or an
/// ancestor of the parent: ancestors form exactly the parent chain.
pub proof fn lemma_parent_chain(a: Seq<u8>, p: Seq<u8>)
    requires
        is_normalized(p),
        p.len() > 0,
    ensures
        is_strict_ancestor(parent_of(p), p),
        is_normalized(parent_of(p)),
        is_strict_ancestor(a, p) <==> (a == parent_of(p) || is_strict_ancestor(a, parent_of(p))),
{
    lemma_last_slash(p);
    let ls = last_slash(p);
    let par = parent_of(p);
    assert(p[0] != 47);
    if ls <= 0 {
        // no separator: the only strict ancestor is the root
        assert(par =~= Seq::<u8>::empty());
        assert(p.subrange(0, 0) =~= Seq::<u8>::empty());
        assert(is_strict_ancestor(par, p));
        if is_strict_ancestor(a, p) && a.len() != 0 {
            assert(p[a.len() as int] == 47);
            assert(false);
        }
        if is_strict_ancestor(a, par) {
            assert(false);
        }
        if a == par {
            assert(is_strict_ancestor(a, p));
        }
    } else {
        assert(par == p.subrange(0, ls));
        assert(p[ls] == 47);
        assert(p.subrange(0, par.len() as int) =~= par);
        assert(is_strict_ancestor(par, p));
        // parent is normalized
        assert(forall|i: int| 0 <= i < par.len() ==> par[i] == p[i]);
        assert(par.len() > 0 ==> par.last() != 47) by {
            if par.len() > 0 && par[ls - 1] == 47 {
                assert(p[ls - 1] == 47 && p[ls] == 47);
                assert(false);
            }
        }
        assert(is_normalized(par));
        // chain property
        if is_strict_ancestor(a, p) {
            if a.len() == ls {
                assert(a =~= par);
            } else if a.len() < ls {
                assert(a.len() == 0 || p[a.len() as int] == 47);
                assert(par.subrange(0, a.len() as int) =~= p.subrange(0, a.len() as int));
                assert(p.subrange(0, a.len() as int) =~= a);
                assert(is_strict_ancestor(a, par));
            } else {
                // a separator past the last one: impossible
                assert(p[a.len() as int] == 47);
                assert(false);
            }
        }
        if a == par {
            assert(is_strict_ancestor(a, p));
        }
        if is_strict_ancestor(a, par) {
            assert(p.subrange(0, a.len() as int) =~= par.subrange(0, a.len() as int));
            if a.len() > 0 {
                assert(p[a.len() as int] == par[a.len() as int]);
            }
            assert(is_strict_ancestor(a, p));
        }
    }
}

/// The 64-bit hash under which a normalized path is stored and looked up.
pub uninterp spec fn path_hash_of(s: Seq<u8>) -> u64;

/// Relies on `xxhash_rust::xxh3::xxh3_64`: a pure, deterministic 64-bit
/// hash of a byte string.
#[verifier::external_body]
fn xxh3_hash(b: &[u8]) -> (r: u64)
    ensures
        r == path_hash_of(b@),
{
    xxhash_rust::xxh3::xxh3_64(b)
}

/// Hash an archive path: normalize it, then hash the normalized bytes.
pub fn hash_path(path: &[u8]) -> (h: u64)
    ensures
        h == path_hash_of(normalize(path@)),
{
    let norm = normalize_path(path);
    xxh3_hash(norm.as_slice())
}

/// On text that is already normalized, one pass changes nothing.
proof fn lemma_norm_core_identity(s: Seq<u8>, acc: Seq<u8>)
    requires
        forall|k: int| 0 <= k < s.len() ==> s[k] != 92,
        forall|k: int| 0 <= k < s.len() - 1 ==> !(#[trigger] s[k] == 47 && s[k + 1] == 47),
        s.len() > 0 ==> (acc.len() == 0 ==> s[0] != 47),
        s.len() > 0 ==> (acc.len() > 0 ==> !(acc.last() == 47 && s[0] == 47)),
    ensures
        norm_core(s, acc) == acc + s,
    decreases s.len(),
{
    if s.len() == 0 {
        assert(norm_core(s, acc) =~= acc + s);
    } else {
        let b = s[0];
        let t = s.skip(1);
        assert(forall|k: int| 0 <= k < t.len() ==> t[k] == s[k + 1]);
        let acc2 = acc.push(b);
        assert(!(b == 47 && (acc.len() == 0 || acc.last() == 47)));
        lemma_norm_core_identity(t, acc2);
        assert(acc2 + t =~= acc + s);
    }
}

/// Normalization is idempotent: a normalized path normalizes to itself.
pub proof fn lemma_normalize_identity(p: Seq<u8>)
    requires
        is_normalized(p),
    ensures
        normalize(p) == p,
{
    lemma_norm_core_identity(p, Seq::empty());
    assert(Seq::<u8>::empty() + p =~= p);
}

/// The strict-ancestor relation is transitive.
pub proof fn lemma_strict_ancestor_trans(a: Seq<u8>, b: Seq<u8>, c: Seq<u8>)
    requires
        is_strict_ancestor(a, b),
        is_strict_ancestor(b, c),
    ensures
        is_strict_ancestor(a, c),
{
    assert(c.subrange(0, b.len() as int) == b);
    assert(forall|k: int| 0 <= k < b.len() ==> c[k] == b[k]);
    assert(c.subrange(0, a.len() as int) =~= b.subrange(0, a.len() as int));
    if a.len() > 0 {
        assert(c[a.len() as int] == b[a.len() as int]);
    }
}

/// The index of the last dot in `p`, or -1 when it has none.
pub open spec fn last_dot(p: Seq<u8>) -> int
    decreases p.len(),
{
    if p.len() == 0 {
        -1
    } else if p.last() == 46 {
        p.len() - 1
    } else {
        last_dot(p.drop_last())
    }
}

/// The extension of a path: what follows the last dot of its final
/// component, empty when the component has no dot or only a leading one.
pub open spec fn ext_of(p: Seq<u8>) -> Seq<u8> {
    if last_dot(p) > last_slash(p) + 1 {
        p.subrange(last_dot(p) + 1, p.len() as int)
    } else {
        Seq::empty()
    }
}

/// `last_dot` really is the last: a dot sits there and none after.
proof fn lemma_last_dot(p: Seq<u8>)
    ensures
        -1 <= last_dot(p) < p.len(),
        last_dot(p) >= 0 ==> p[last_dot(p)] == 46,
        forall|i: int| last_dot(p) < i < p.len() ==> p[i] != 46,
    decreases p.len(),
{
    if p.len() == 0 {
    } else if p.last() == 46 {
    } else {
        lemma_last_dot(p.drop_last());
        assert(forall|i: int| 0 <= i < p.len() - 1 ==> p[i] == p.drop_last()[i]);
    }
}

/// Exec extension computation, proved to agree with `ext_of`.
pub fn extension_of(p: &[u8]) -> (r: Vec<u8>)
    ensures
        r@ == ext_of(p@),
{
    proof {
        lemma_last_dot(p@);
        lemma_last_slash(p@);
    }
    let mut j: usize = p.len();
    while j > 0
        invariant
            0 <= j <= p.len(),
            forall|i: int| j <= i < p@.len() ==> p@[i] != 46 && p@[i] != 47,
        decreases j,
    {
        let b = p[j - 1];
        if b == 47 {
            // a separator before any dot: no extension
            proof {
                lemma_last_dot(p@);
                lemma_last_slash(p@);
                if last_dot(p@) > last_slash(p@) + 1 {
                    assert(p@[last_dot(p@)] == 46);
                    assert(false);
                }
            }
            let out: Vec<u8> = Vec::new();
            assert(out@ =~= ext_of(p@));
            return out;
        }
        if b == 46 {
            proof {
                lemma_last_dot(p@);
                lemma_last_slash(p@);
                assert(last_dot(p@) == j - 1);
                assert(last_slash(p@) < j - 1);
            }
            if j >= 2 && p[j - 2] != 47 {
                let mut out: Vec<u8> = Vec::new();
                let mut i: usize = j;
                while i < p.len()
                    invariant
                        j <= i <= p@.len(),
                        out@ == p@.subrange(j as int, i as int),
                    decreases p.len() - i,
                {
                    out.push(p[i]);
                    assert(out@ =~= p@.subrange(j as int, i + 1));
                    i = i + 1;
                }
                proof {
                    lemma_last_dot(p@);
                    lemma_last_slash(p@);
                    if last_slash(p@) == j - 2 {
                        assert(p@[j - 2] == 47);
                        assert(false);
                    }
                    if last_slash(p@) > j - 2 {
                        assert(p@[last_slash(p@)] == 47);
                        assert(false);
                    }
                    assert(last_dot(p@) > last_slash(p@) + 1);
                }
                assert(out@ =~= ext_of(p@));
                return out;
            } else {
                // the dot leads its component: no extension
                proof {
                    lemma_last_dot(p@);
                    lemma_last_slash(p@);
                    if j >= 2 {
                        assert(p@[j - 2] == 47);
                        assert(last_slash(p@) >= j - 2);
                        assert(!(last_dot(p@) > last_slash(p@) + 1));
                    } else {
                        assert(j == 1);
                        assert(!(last_dot(p@) > last_slash(p@) + 1)) by {
                            if last_slash(p@) + 1 < 0 {
                                assert(last_slash(p@) >= -1);
                            }
                        }
                    }
                }
                let out: Vec<u8> = Vec::new();
                assert(out@ =~= ext_of(p@));
                return out;
            }
        }
        j = j - 1;
    }
    proof {
        lemma_last_dot(p@);
        if last_dot(p@) >= 0 {
            assert(p@[last_dot(p@)] == 46);
        }
    }
    let out: Vec<u8> = Vec::new();
    assert(out@ =~= ext_of(p@));
    return out;
}

/// A prefix of valid UTF-8 cut right before an ASCII byte (or at the
/// end) is itself valid UTF-8: an ASCII byte is never a continuation
/// byte, so the cut falls on a scalar boundary.
pub proof fn lemma_valid_utf8_prefix_at_ascii(bytes: Seq<u8>, k: int)
    requires
        valid_utf8(bytes),
        0 <= k <= bytes.len(),
        k < bytes.len() ==> bytes[k] < 128,
    ensures
        valid_utf8(bytes.subrange(0, k)),
    decreases bytes.len(),
{
    if k == 0 {
        assert(bytes.subrange(0, 0).len() == 0);
    } else {
        let l = length_of_first_scalar(bytes);
        assert(valid_first_scalar(bytes));
        assert(1 <= l <= 4);
        if k < l {
            // within the first scalar, every byte after the leading one
            // is a continuation byte, and those are never ASCII
            assert(is_continuation_byte(bytes[k]));
            assert(false);
        }
        let pre = bytes.subrange(0, k);
        assert(forall|i: int| 0 <= i < k ==> pre[i] == bytes[i]);
        assert(valid_leading_and_continuation_bytes_first_codepoint(pre));
        assert(length_of_first_codepoint(pre) == l);
        assert(decode_first_codepoint(pre) == decode_first_codepoint(bytes));
        assert(valid_first_scalar(pre));
        let rest = pop_first_scalar(bytes);
        assert(rest =~= bytes.subrange(l, bytes.len() as int));
        if k < bytes.len() {
            assert(rest[k - l] == bytes[k]);
        }
        lemma_valid_utf8_prefix_at_ascii(rest, k - l);
        assert(pop_first_scalar(pre) =~= rest.subrange(0, k - l));
        assert(valid_utf8(pop_first_scalar(pre)));
    }
}

/// The parent of a non-empty normalized, valid-UTF-8 path is valid
/// UTF-8: the cut falls right before an ASCII separator.
pub proof fn lemma_parent_utf8(p: Seq<u8>)
    requires
        is_normalized(p),
        valid_utf8(p),
        p.len() > 0,
    ensures
        valid_utf8(parent_of(p)),
{
    lemma_last_slash(p);
    let ls = last_slash(p);
    if ls <= 0 {
        assert(parent_of(p) =~= Seq::<u8>::empty());
        assert(valid_utf8(Seq::<u8>::empty()));
    } else {
        assert(p[ls] == 47);
        lemma_valid_utf8_prefix_at_ascii(p, ls);
    }
}

} // verus!
