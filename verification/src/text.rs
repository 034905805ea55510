//! Case-insensitive substring matching and whitespace splitting over text.
//!
//! Search terms are matched against item fields with substring semantics,
//! ignoring ASCII case; a raw search string is split on whitespace into
//! independent terms.

use vstd::prelude::*;

verus! {

/// ASCII whitespace: the characters a search string is split on.
pub open spec fn is_space(c: char) -> bool {
    c == ' ' || c == '\t' || c == '\n' || c == '\r' || c as u32 == 0x0B || c as u32 == 0x0C
}

/// Code point of `c` with ASCII upper-case letters folded to lower case.
pub open spec fn lower_code(c: char) -> u32 {
    if 65 <= c as u32 && c as u32 <= 90 {
        (c as u32 + 32) as u32
    } else {
        c as u32
    }
}

/// Two characters are equal up to ASCII case.
pub open spec fn chars_eq_ci(a: char, b: char) -> bool {
    lower_code(a) == lower_code(b)
}

/// `needle` occurs in `hay` starting at position `k`, up to ASCII case.
pub open spec fn matches_at(hay: Seq<char>, needle: Seq<char>, k: int) -> bool {
    &&& 0 <= k
    &&& k + needle.len() <= hay.len()
    &&& forall|j: int| 0 <= j < needle.len() ==> chars_eq_ci(hay[k + j], needle[j])
}

/// `needle` occurs somewhere in `hay`, up to ASCII case (substring semantics).
pub open spec fn contains_ci(hay: Seq<char>, needle: Seq<char>) -> bool {
    exists|k: int| matches_at(hay, needle, k)
}

fn eq_ci_exec(a: char, b: char) -> (r: bool)
    ensures
        r == chars_eq_ci(a, b),
{
    let x: u32 = a as u32;
    let y: u32 = b as u32;
    let xl: u32 = if 65 <= x && x <= 90 { x + 32 } else { x };
    let yl: u32 = if 65 <= y && y <= 90 { y + 32 } else { y };
    xl == yl
}

/// Case-insensitive substring test: does `needle` occur in `hay`?
pub fn contains_ci_exec(hay: &str, needle: &str) -> (r: bool)
    ensures
        r == contains_ci(hay@, needle@),
{
    let hay_len = hay.unicode_len();
    let needle_len = needle.unicode_len();
    if needle_len > hay_len {
        assert(forall|k: int| !matches_at(hay@, needle@, k));
        return false;
    }
    let mut k: usize = 0;
    while k <= hay_len - needle_len
        invariant
            needle_len == needle@.len(),
            hay_len == hay@.len(),
            needle_len <= hay_len,
            k <= hay_len - needle_len + 1,
            forall|k0: int| 0 <= k0 < k ==> !matches_at(hay@, needle@, k0),
        decreases hay_len - needle_len - k + 1,
    {
        let mut j: usize = 0;
        let mut mismatch = false;
        while j < needle_len
            invariant
                needle_len == needle@.len(),
                hay_len == hay@.len(),
                k + needle_len <= hay_len,
                j <= needle_len,
                !mismatch ==> forall|j0: int| 0 <= j0 < j ==> chars_eq_ci(
                    hay@[k + j0],
                    needle@[j0],
                ),
                mismatch ==> !matches_at(hay@, needle@, k as int),
            decreases needle_len - j,
        {
            if !mismatch {
                let hc = hay.get_char(k + j);
                let nc = needle.get_char(j);
                if !eq_ci_exec(hc, nc) {
                    mismatch = true;
                }
            }
            j += 1;
        }
        if !mismatch {
            assert(matches_at(hay@, needle@, k as int));
            return true;
        }
        k += 1;
    }
    assert(forall|k0: int| !matches_at(hay@, needle@, k0));
    false
}

/// The tokens of `s` after `cur`, where `cur` is a partial token already read.
pub open spec fn split_ws_acc(s: Seq<char>, cur: Seq<char>) -> Seq<Seq<char>>
    decreases s.len(),
{
    if s.len() == 0 {
        if cur.len() == 0 {
            Seq::empty()
        } else {
            seq![cur]
        }
    } else if is_space(s[0]) {
        if cur.len() == 0 {
            split_ws_acc(s.skip(1), Seq::empty())
        } else {
            seq![cur] + split_ws_acc(s.skip(1), Seq::empty())
        }
    } else {
        split_ws_acc(s.skip(1), cur.push(s[0]))
    }
}

/// The whitespace-separated tokens of `s`, in order. An empty or all-space
/// string has no tokens; no token is empty.
pub open spec fn split_ws(s: Seq<char>) -> Seq<Seq<char>> {
    split_ws_acc(s, Seq::empty())
}

/// An empty string splits into no tokens.
pub proof fn lemma_split_ws_empty()
    ensures
        split_ws(Seq::<char>::empty()) == Seq::<Seq<char>>::empty(),
{
    assert(split_ws(Seq::<char>::empty()) =~= Seq::<Seq<char>>::empty());
}

fn is_space_exec(c: char) -> (r: bool)
    ensures
        r == is_space(c),
{
    c == ' ' || c == '\t' || c == '\n' || c == '\r' || c as u32 == 0x0B || c as u32 == 0x0C
}

/// Split `s` on whitespace into its tokens.
pub fn split_ws_exec(s: &str) -> (r: Vec<String>)
    ensures
        r@.map_values(|t: String| t@) == split_ws(s@),
{
    let n = s.unicode_len();
    let mut out: Vec<String> = Vec::new();
    let mut cur = String::new();
    let mut i: usize = 0;
    proof {
        assert(s@.skip(0) =~= s@);
        assert(out@.map_values(|t: String| t@) =~= Seq::<Seq<char>>::empty());
        assert(Seq::<Seq<char>>::empty() + split_ws_acc(s@, cur@) =~= split_ws_acc(s@, cur@));
    }
    while i < n
        invariant
            n == s@.len(),
            i <= n,
            split_ws(s@) == out@.map_values(|t: String| t@) + split_ws_acc(
                s@.skip(i as int),
                cur@,
            ),
        decreases n - i,
    {
        let c = s.get_char(i);
        let ghost pre = s@.skip(i as int);
        proof {
            assert(pre[0] == s@[i as int]);
            assert(pre.skip(1) =~= s@.skip(i as int + 1));
        }
        if is_space_exec(c) {
            if !cur.as_str().is_empty() {
                let ghost prev_out = out@;
                let ghost prev_cur = cur@;
                out.push(cur);
                cur = String::new();
                proof {
                    assert(split_ws_acc(pre, prev_cur) == seq![prev_cur] + split_ws_acc(
                        s@.skip(i as int + 1),
                        cur@,
                    ));
                    assert(prev_out.map_values(|t: String| t@) + split_ws_acc(pre, prev_cur)
                        =~= out@.map_values(|t: String| t@) + split_ws_acc(
                        s@.skip(i as int + 1),
                        cur@,
                    ));
                }
            } else {
                proof {
                    assert(cur@ =~= Seq::<char>::empty());
                    assert(split_ws_acc(pre, cur@) == split_ws_acc(
                        pre.skip(1),
                        Seq::<char>::empty(),
                    ));
                    assert(split_ws_acc(pre, cur@) == split_ws_acc(s@.skip(i as int + 1), cur@));
                }
            }
        } else {
            let ghost prev_cur = cur@;
            let piece = s.substring_char(i, i + 1);
            proof {
                assert(piece@ =~= seq![s@[i as int]]);
            }
            cur.append(piece);
            proof {
                assert(cur@ =~= prev_cur.push(s@[i as int]));
                assert(split_ws_acc(pre, prev_cur) == split_ws_acc(s@.skip(i as int + 1), cur@));
            }
        }
        i += 1;
    }
    proof {
        assert(s@.skip(i as int) =~= Seq::<char>::empty());
    }
    if !cur.as_str().is_empty() {
        let ghost prev_out = out@;
        let ghost prev_cur = cur@;
        proof {
            assert(split_ws_acc(Seq::<char>::empty(), prev_cur) == seq![prev_cur]);
        }
        out.push(cur);
        proof {
            assert(prev_out.map_values(|t: String| t@) + seq![prev_cur] =~= out@.map_values(
                |t: String| t@,
            ));
        }
    } else {
        proof {
            assert(out@.map_values(|t: String| t@) + split_ws_acc(
                Seq::<char>::empty(),
                cur@,
            ) =~= out@.map_values(|t: String| t@));
        }
    }
    out
}

} // verus!
