//! Path algebra on `/`-separated path strings: joining, splitting off the
//! final segment, relativizing against a base, segment membership, and the
//! lexicographic name order used by directory listings.

use vstd::prelude::*;
use vstd::string::StrSliceExecFns;
use vstd::string::StringExecFns;

verus! {

/// `base` and `rel` joined with a single separator.
pub open spec fn joined(base: Seq<char>, rel: Seq<char>) -> Seq<char> {
    base + seq!['/'] + rel
}

/// Whether `s` holds a separator anywhere.
pub open spec fn has_slash(s: Seq<char>) -> bool {
    exists|i: int| 0 <= i < s.len() && s[i] == '/'
}

/// Join two path pieces with a `/`.
pub fn join_path(base: &str, rel: &str) -> (r: String)
    ensures
        r@ == joined(base@, rel@),
{
    proof {
        reveal_strlit("/");
    }
    let mut s = base.to_owned();
    s.append("/");
    s.append(rel);
    proof {
        assert(s@ =~= joined(base@, rel@));
    }
    s
}

/// Whether two strings hold the same characters.
pub fn str_eq(a: &str, b: &str) -> (r: bool)
    ensures
        r == (a@ == b@),
{
    let alen = a.unicode_len();
    let blen = b.unicode_len();
    if alen != blen {
        return false;
    }
    let mut i: usize = 0;
    while i < alen
        invariant
            alen == a@.len(),
            blen == b@.len(),
            alen == blen,
            i <= alen,
            forall|j: int| 0 <= j < i ==> a@[j] == b@[j],
        decreases alen - i,
    {
        if a.get_char(i) != b.get_char(i) {
            return false;
        }
        i = i + 1;
    }
    proof {
        assert(a@ =~= b@);
    }
    true
}

/// Split a path at its last separator: `Some((parent, name))` with
/// `p == parent + "/" + name` and `name` separator-free; `None` when the path
/// has no separator at all.
pub fn split_path(p: &str) -> (r: Option<(String, String)>)
    ensures
        match r {
            Some(pair) => p@ == joined(pair.0@, pair.1@) && !has_slash(pair.1@),
            None => !has_slash(p@),
        },
{
    let len = p.unicode_len();
    let mut k: usize = len;
    while k > 0
        invariant
            len == p@.len(),
            k <= len,
            forall|j: int| k <= j < len ==> p@[j] != '/',
        decreases k,
    {
        if p.get_char(k - 1) == '/' {
            let parent = p.substring_char(0, k - 1).to_owned();
            let name = p.substring_char(k, len).to_owned();
            proof {
                assert(p@ =~= joined(parent@, name@));
            }
            return Some((parent, name));
        }
        k = k - 1;
    }
    None
}

/// The final `/`-separated segment of a path, or the whole path when it has
/// no separator.
pub open spec fn last_seg(s: Seq<char>) -> Seq<char>
    decreases s.len(),
    via last_seg_decreases
{
    let k = first_slash(s);
    if k == s.len() {
        s
    } else {
        last_seg(s.skip(k + 1))
    }
}

#[via_fn]
proof fn last_seg_decreases(s: Seq<char>) {
    lemma_first_slash(s);
}

/// A path without separators is its own final segment.
pub proof fn lemma_last_seg_plain(b: Seq<char>)
    requires
        !has_slash(b),
    ensures
        last_seg(b) == b,
{
    lemma_first_slash(b);
    if first_slash(b) < b.len() {
        assert(b[first_slash(b)] == '/');
    }
}

/// The final segment of a joined path is the separator-free suffix.
pub proof fn lemma_last_seg_joined(a: Seq<char>, b: Seq<char>)
    requires
        !has_slash(b),
    ensures
        last_seg(joined(a, b)) == b,
    decreases a.len(),
{
    lemma_first_slash(a);
    let j = joined(a, b);
    lemma_first_slash(j);
    let k = first_slash(j);
    let ka = first_slash(a);
    if ka == a.len() {
        assert(j[a.len() as int] == '/');
        assert forall|t: int| 0 <= t < a.len() implies j[t] != '/' by {
            assert(j[t] == a[t]);
        }
        assert(k == a.len()) by {
            if k < a.len() {
                assert(j[k] == '/');
            }
            if k > a.len() {
                assert(j[a.len() as int] != '/');
            }
        }
        assert(j.skip(k + 1) =~= b);
        lemma_last_seg_plain(b);
    } else {
        assert(j[ka] == a[ka]);
        assert(j[ka] == '/');
        assert forall|t: int| 0 <= t < ka implies j[t] != '/' by {
            assert(j[t] == a[t]);
        }
        assert(k == ka) by {
            if k < ka {
                assert(j[k] == '/');
                assert(a[k] == '/');
            }
            if k > ka {
                assert(j[ka] != '/');
            }
        }
        assert(j.skip(ka + 1) =~= joined(a.skip(ka + 1), b));
        lemma_last_seg_joined(a.skip(ka + 1), b);
    }
}

/// What stands before the last separator of a path (meaningful only when the
/// path has one).
pub open spec fn parent_dir(s: Seq<char>) -> Seq<char> {
    s.take(s.len() - last_seg(s).len() - 1)
}

/// A path with a separator splits as its parent joined with its final segment.
pub proof fn lemma_parent_of_joined(a: Seq<char>, b: Seq<char>)
    requires
        !has_slash(b),
    ensures
        parent_dir(joined(a, b)) == a,
        joined(parent_dir(joined(a, b)), last_seg(joined(a, b))) == joined(a, b),
{
    lemma_last_seg_joined(a, b);
    assert(joined(a, b).len() == a.len() + 1 + b.len());
    assert(parent_dir(joined(a, b)) =~= a);
}

/// The final segment of a path: what stands after the last separator, or the
/// whole path when it has none.
pub fn last_segment(p: &str) -> (r: String)
    ensures
        r@ == last_seg(p@),
        !has_slash(r@),
{
    match split_path(p) {
        Some(pair) => {
            proof {
                assert(p@ == joined(pair.0@, pair.1@));
                lemma_last_seg_joined(pair.0@, pair.1@);
            }
            pair.1
        },
        None => {
            proof {
                lemma_last_seg_plain(p@);
            }
            p.to_owned()
        },
    }
}

/// Express `p` relative to `base`: `Some(rest)` exactly when
/// `p == base + "/" + rest`.
pub fn strip_prefix(p: &str, base: &str) -> (r: Option<String>)
    ensures
        match r {
            Some(rest) => p@ == joined(base@, rest@),
            None => forall|rest: Seq<char>| p@ != joined(base@, rest),
        },
{
    let plen = p.unicode_len();
    let blen = base.unicode_len();
    if plen <= blen {
        proof {
            assert(forall|rest: Seq<char>| joined(base@, rest).len() > p@.len());
        }
        return None;
    }
    let mut i: usize = 0;
    while i < blen
        invariant
            plen == p@.len(),
            blen == base@.len(),
            plen >= blen + 1,
            i <= blen,
            forall|j: int| 0 <= j < i ==> p@[j] == base@[j],
        decreases blen - i,
    {
        if p.get_char(i) != base.get_char(i) {
            proof {
                assert(forall|rest: Seq<char>| joined(base@, rest)[i as int] == base@[i as int]);
            }
            return None;
        }
        i = i + 1;
    }
    if p.get_char(blen) != '/' {
        proof {
            assert(forall|rest: Seq<char>| joined(base@, rest)[blen as int] == '/');
        }
        return None;
    }
    let rest = p.substring_char(blen + 1, plen).to_owned();
    proof {
        assert(p@ =~= joined(base@, rest@));
    }
    Some(rest)
}

/// Index of the first separator in `s`, or `s.len()` when it has none.
pub open spec fn first_slash(s: Seq<char>) -> int
    decreases s.len(),
{
    if s.len() == 0 {
        0
    } else if s[0] == '/' {
        0
    } else {
        1 + first_slash(s.drop_first())
    }
}

pub proof fn lemma_first_slash(s: Seq<char>)
    ensures
        0 <= first_slash(s) <= s.len(),
        first_slash(s) < s.len() ==> s[first_slash(s)] == '/',
        forall|j: int| 0 <= j < first_slash(s) ==> s[j] != '/',
    decreases s.len(),
{
    if s.len() > 0 && s[0] != '/' {
        lemma_first_slash(s.drop_first());
        assert(forall|j: int| 0 <= j < first_slash(s.drop_first()) ==> s.drop_first()[j] != '/');
        assert(forall|j: int| 1 <= j < first_slash(s) ==> s[j] == s.drop_first()[j - 1]);
    }
}

/// The `/`-separated segments of a path. An empty path yields one empty
/// segment, as does each doubled separator.
pub open spec fn spec_segments(s: Seq<char>) -> Seq<Seq<char>>
    decreases s.len(),
    via spec_segments_decreases
{
    let k = first_slash(s);
    if k == s.len() {
        seq![s]
    } else {
        seq![s.take(k)] + spec_segments(s.skip(k + 1))
    }
}

#[via_fn]
proof fn spec_segments_decreases(s: Seq<char>) {
    lemma_first_slash(s);
}

/// Index of the first separator at or after position 0, by scanning.
pub fn find_first_slash(p: &str) -> (r: usize)
    ensures
        r == first_slash(p@),
{
    proof {
        lemma_first_slash(p@);
    }
    let len = p.unicode_len();
    let mut i: usize = 0;
    while i < len
        invariant
            len == p@.len(),
            i <= len,
            forall|j: int| 0 <= j < i ==> p@[j] != '/',
            0 <= first_slash(p@) <= p@.len(),
            first_slash(p@) < p@.len() ==> p@[first_slash(p@)] == '/',
            forall|j: int| 0 <= j < first_slash(p@) ==> p@[j] != '/',
        decreases len - i,
    {
        if p.get_char(i) == '/' {
            return i;
        }
        i = i + 1;
    }
    len
}

/// Whether some `/`-separated segment of `p` equals `name`.
pub fn path_has_component(p: &str, name: &str) -> (r: bool)
    ensures
        r == spec_segments(p@).contains(name@),
    decreases p@.len(),
{
    let len = p.unicode_len();
    let k = find_first_slash(p);
    proof {
        lemma_first_slash(p@);
    }
    if k == len {
        let eq = str_eq(p, name);
        proof {
            assert(spec_segments(p@) =~= seq![p@]);
            if eq {
                assert(spec_segments(p@)[0] == name@);
            }
        }
        eq
    } else {
        let head = p.substring_char(0, k);
        let tail = p.substring_char(k + 1, len);
        proof {
            assert(head@ == p@.take(k as int));
            assert(tail@ == p@.skip(k as int + 1));
        }
        let eq = str_eq(head, name);
        if eq {
            proof {
                assert(spec_segments(p@)[0] == name@);
            }
            true
        } else {
            let rec = path_has_component(tail, name);
            proof {
                let segs = spec_segments(p@);
                let tsegs = spec_segments(tail@);
                assert(segs =~= seq![head@] + tsegs);
                if rec {
                    let j = choose|j: int| 0 <= j < tsegs.len() && tsegs[j] == name@;
                    assert(segs[j + 1] == name@);
                } else {
                    if segs.contains(name@) {
                        let j = choose|j: int| 0 <= j < segs.len() && segs[j] == name@;
                        assert(j != 0);
                        assert(tsegs[j - 1] == name@);
                    }
                }
            }
            rec
        }
    }
}


/// A segment a vault-relative path may carry: non-empty, and not a current- or
/// parent-directory reference.
pub open spec fn safe_segment(s: Seq<char>) -> bool {
    s.len() > 0 && s != "."@ && s != ".."@
}

/// A vault-relative path that stays inside the vault root when joined onto
/// it: every `/`-separated segment is a plain name. An empty path, a leading
/// or doubled separator, and any `.` or `..` segment are all rejected.
pub open spec fn safe_rel_path(rel: Seq<char>) -> bool {
    forall|i: int|
        0 <= i < spec_segments(rel).len() ==> safe_segment(#[trigger] spec_segments(rel)[i])
}

/// Whether one segment is a plain name.
fn check_segment(seg: &str) -> (r: bool)
    ensures
        r == safe_segment(seg@),
{
    if seg.unicode_len() == 0 {
        return false;
    }
    if str_eq(seg, ".") {
        return false;
    }
    if str_eq(seg, "..") {
        return false;
    }
    true
}

/// Whether a vault-relative path stays inside the vault root: see
/// [`safe_rel_path`].
pub fn is_safe_rel_path(rel: &str) -> (r: bool)
    ensures
        r == safe_rel_path(rel@),
    decreases rel@.len(),
{
    let len = rel.unicode_len();
    let k = find_first_slash(rel);
    proof {
        lemma_first_slash(rel@);
    }
    if k == len {
        let ok = check_segment(rel);
        proof {
            assert(spec_segments(rel@) =~= seq![rel@]);
            assert(spec_segments(rel@)[0] == rel@);
            if ok {
                assert forall|i: int| 0 <= i < spec_segments(rel@).len() implies safe_segment(
                    #[trigger] spec_segments(rel@)[i],
                ) by {
                    assert(i == 0);
                }
            } else {
                assert(!safe_segment(spec_segments(rel@)[0]));
            }
        }
        ok
    } else {
        let head = rel.substring_char(0, k);
        let tail = rel.substring_char(k + 1, len);
        proof {
            assert(head@ == rel@.take(k as int));
            assert(tail@ == rel@.skip(k as int + 1));
        }
        let head_ok = check_segment(head);
        let ghost segs = spec_segments(rel@);
        let ghost tsegs = spec_segments(tail@);
        proof {
            assert(segs =~= seq![head@] + tsegs);
        }
        if !head_ok {
            proof {
                assert(!safe_segment(segs[0]));
            }
            return false;
        }
        let rec = is_safe_rel_path(tail);
        proof {
            if rec {
                assert forall|i: int| 0 <= i < segs.len() implies safe_segment(segs[i]) by {
                    if i > 0 {
                        assert(segs[i] == tsegs[i - 1]);
                    }
                }
            } else {
                let j = choose|j: int| 0 <= j < tsegs.len() && !safe_segment(tsegs[j]);
                assert(segs[j + 1] == tsegs[j]);
            }
        }
        rec
    }
}

/// Lexicographic order on character sequences, by Unicode scalar value.
pub open spec fn lex_le(a: Seq<char>, b: Seq<char>) -> bool
    decreases a.len(),
{
    if a.len() == 0 {
        true
    } else if b.len() == 0 {
        false
    } else if (a[0] as u32) == (b[0] as u32) {
        lex_le(a.drop_first(), b.drop_first())
    } else {
        (a[0] as u32) < (b[0] as u32)
    }
}

/// The order is total.
pub proof fn lemma_lex_le_total(a: Seq<char>, b: Seq<char>)
    ensures
        lex_le(a, b) || lex_le(b, a),
    decreases a.len(),
{
    if a.len() > 0 && b.len() > 0 && (a[0] as u32) == (b[0] as u32) {
        lemma_lex_le_total(a.drop_first(), b.drop_first());
    }
}

/// The order is transitive.
pub proof fn lemma_lex_le_trans(a: Seq<char>, b: Seq<char>, c: Seq<char>)
    requires
        lex_le(a, b),
        lex_le(b, c),
    ensures
        lex_le(a, c),
    decreases a.len(),
{
    if a.len() > 0 && b.len() > 0 && c.len() > 0 && (a[0] as u32) == (b[0] as u32) && (b[0] as u32)
        == (c[0] as u32) {
        lemma_lex_le_trans(a.drop_first(), b.drop_first(), c.drop_first());
    }
}

/// Dropping an equal prefix does not change the order.
pub proof fn lemma_lex_le_skip(a: Seq<char>, b: Seq<char>, i: int)
    requires
        0 <= i <= a.len(),
        0 <= i <= b.len(),
        forall|j: int| 0 <= j < i ==> (a[j] as u32) == (b[j] as u32),
    ensures
        lex_le(a, b) == lex_le(a.skip(i), b.skip(i)),
    decreases i,
{
    if i > 0 {
        assert(a.len() > 0 && b.len() > 0 && (a[0] as u32) == (b[0] as u32));
        assert(a.drop_first().skip(i - 1) =~= a.skip(i));
        assert(b.drop_first().skip(i - 1) =~= b.skip(i));
        assert(forall|j: int|
            0 <= j < i - 1 ==> (a.drop_first()[j] as u32) == (b.drop_first()[j] as u32));
        lemma_lex_le_skip(a.drop_first(), b.drop_first(), i - 1);
    } else {
        assert(a.skip(0) =~= a);
        assert(b.skip(0) =~= b);
    }
}

/// Whether `a` comes at or before `b` in lexicographic order.
pub fn str_le(a: &str, b: &str) -> (r: bool)
    ensures
        r == lex_le(a@, b@),
{
    let alen = a.unicode_len();
    let blen = b.unicode_len();
    let mut i: usize = 0;
    loop
        invariant
            alen == a@.len(),
            blen == b@.len(),
            i <= alen,
            i <= blen,
            forall|j: int| 0 <= j < i ==> (a@[j] as u32) == (b@[j] as u32),
        decreases alen - i,
    {
        if i == alen || i == blen {
            proof {
                lemma_lex_le_skip(a@, b@, i as int);
            }
            return alen <= blen;
        }
        let ac = a.get_char(i) as u32;
        let bc = b.get_char(i) as u32;
        if ac != bc {
            proof {
                lemma_lex_le_skip(a@, b@, i as int);
            }
            return ac < bc;
        }
        i = i + 1;
    }
}

} // verus!
