//! Character-level text helpers: ASCII case, white space, comma lists.
use vstd::prelude::*;

verus! {

/// The code of a character with ASCII upper-case letters mapped to lower
/// case.
pub open spec fn lower_code(c: char) -> u32 {
    let u = c as u32;
    if 65 <= u <= 90 {
        (u + 32) as u32
    } else {
        u
    }
}

/// `a` and `b` are equal up to ASCII case.
pub open spec fn eq_ignore_ascii_case(a: Seq<char>, b: Seq<char>) -> bool {
    a.len() == b.len() && forall|i: int| 0 <= i < a.len() ==> lower_code(#[trigger] a[i]) == lower_code(b[i])
}

/// Unicode white space, as `char::is_whitespace` and `str::trim` read it.
pub open spec fn is_white_space(c: char) -> bool {
    let u = c as u32;
    (9 <= u <= 13) || u == 32 || u == 0x85 || u == 0xA0 || u == 0x1680 || (0x2000 <= u <= 0x200A)
        || u == 0x2028 || u == 0x2029 || u == 0x202F || u == 0x205F || u == 0x3000
}

/// `s` without its leading white space.
pub open spec fn trim_start(s: Seq<char>) -> Seq<char>
    decreases s.len(),
{
    if s.len() > 0 && is_white_space(s[0]) {
        trim_start(s.drop_first())
    } else {
        s
    }
}

/// `s` without its trailing white space.
pub open spec fn trim_end(s: Seq<char>) -> Seq<char>
    decreases s.len(),
{
    if s.len() > 0 && is_white_space(s.last()) {
        trim_end(s.drop_last())
    } else {
        s
    }
}

/// `s` without leading and trailing white space.
pub open spec fn trim(s: Seq<char>) -> Seq<char> {
    trim_end(trim_start(s))
}

/// The pieces of `s` between commas: one more than there are commas.
pub open spec fn split_commas(s: Seq<char>) -> Seq<Seq<char>>
    decreases s.len(),
{
    if s.len() == 0 {
        seq![Seq::empty()]
    } else {
        let r = split_commas(s.drop_last());
        if s.last() == ',' {
            r.push(Seq::empty())
        } else {
            r.update(r.len() - 1, r.last().push(s.last()))
        }
    }
}

/// The trimmed pieces of `s` between commas.
pub open spec fn comma_parts(s: Seq<char>) -> Seq<Seq<char>> {
    split_commas(s).map_values(|p: Seq<char>| trim(p))
}

/// The characters of a string.
pub fn chars_of(s: &str) -> (v: Vec<char>)
    ensures
        v@ == s@,
{
    let n = s.unicode_len();
    let mut v: Vec<char> = Vec::new();
    let mut i: usize = 0;
    while i < n
        invariant
            i <= n,
            n == s@.len(),
            v@ == s@.take(i as int),
        decreases n - i,
    {
        v.push(s.get_char(i));
        proof {
            assert(s@.take(i + 1) =~= s@.take(i as int).push(s@[i as int]));
        }
        i += 1;
    }
    proof {
        assert(s@.take(n as int) =~= s@);
    }
    v
}

fn lower_code_of(c: char) -> (u: u32)
    ensures
        u == lower_code(c),
{
    let u = c as u32;
    if 65 <= u && u <= 90 {
        u + 32
    } else {
        u
    }
}

/// The strings are equal up to ASCII case.
pub fn chars_eq_ignore_ascii_case(a: &[char], b: &[char]) -> (r: bool)
    ensures
        r == eq_ignore_ascii_case(a@, b@),
{
    if a.len() != b.len() {
        return false;
    }
    let mut i: usize = 0;
    while i < a.len()
        invariant
            i <= a@.len(),
            a@.len() == b@.len(),
            forall|j: int| 0 <= j < i ==> lower_code(#[trigger] a@[j]) == lower_code(b@[j]),
        decreases a@.len() - i,
    {
        if lower_code_of(a[i]) != lower_code_of(b[i]) {
            return false;
        }
        i += 1;
    }
    true
}

/// The strings are equal.
pub fn chars_eq(a: &[char], b: &[char]) -> (r: bool)
    ensures
        r == (a@ == b@),
{
    if a.len() != b.len() {
        return false;
    }
    let mut i: usize = 0;
    while i < a.len()
        invariant
            i <= a@.len(),
            a@.len() == b@.len(),
            forall|j: int| 0 <= j < i ==> #[trigger] a@[j] == b@[j],
        decreases a@.len() - i,
    {
        if a[i] != b[i] {
            return false;
        }
        i += 1;
    }
    proof {
        assert(a@ =~= b@);
    }
    true
}

/// `c` is Unicode white space.
pub fn is_white_space_char(c: char) -> (r: bool)
    ensures
        r == is_white_space(c),
{
    let u = c as u32;
    (9 <= u && u <= 13) || u == 32 || u == 0x85 || u == 0xA0 || u == 0x1680 || (0x2000 <= u
        && u <= 0x200A) || u == 0x2028 || u == 0x2029 || u == 0x202F || u == 0x205F || u
        == 0x3000
}

proof fn lemma_trim_start(s: Seq<char>, a: int)
    requires
        0 <= a <= s.len(),
        forall|i: int| 0 <= i < a ==> is_white_space(#[trigger] s[i]),
        a == s.len() || !is_white_space(s[a]),
    ensures
        trim_start(s) == s.skip(a),
    decreases a,
{
    if a == 0 {
        assert(s.skip(0) =~= s);
    } else {
        let t = s.drop_first();
        assert forall|i: int| 0 <= i < a - 1 implies is_white_space(#[trigger] t[i]) by {
            assert(t[i] == s[i + 1]);
        }
        lemma_trim_start(t, a - 1);
        assert(t.skip(a - 1) =~= s.skip(a));
    }
}

proof fn lemma_trim_end(s: Seq<char>, b: int)
    requires
        0 <= b <= s.len(),
        forall|i: int| b <= i < s.len() ==> is_white_space(#[trigger] s[i]),
        b == 0 || !is_white_space(s[b - 1]),
    ensures
        trim_end(s) == s.take(b),
    decreases s.len() - b,
{
    if b == s.len() {
        assert(s.take(b) =~= s);
    } else {
        let t = s.drop_last();
        assert(is_white_space(s[s.len() - 1]));
        lemma_trim_end(t, b);
        assert(t.take(b) =~= s.take(b));
    }
}

/// The string of `s`'s characters `lo..hi`, without leading and trailing
/// white space.
fn trimmed_piece(s: &str, chars: &Vec<char>, lo: usize, hi: usize) -> (r: String)
    requires
        chars@ == s@,
        lo <= hi <= s@.len(),
    ensures
        r@ == trim(s@.subrange(lo as int, hi as int)),
{
    let ghost p = s@.subrange(lo as int, hi as int);
    let mut a = lo;
    while a < hi && is_white_space_char(chars[a])
        invariant
            lo <= a <= hi,
            hi <= chars@.len(),
            chars@ == s@,
            forall|i: int| lo <= i < a ==> is_white_space(#[trigger] chars@[i]),
        decreases hi - a,
    {
        a += 1;
    }
    proof {
        assert forall|i: int| 0 <= i < a - lo implies is_white_space(#[trigger] p[i]) by {
            assert(p[i] == chars@[lo + i]);
        }
        lemma_trim_start(p, a - lo);
        assert(p.skip(a - lo) =~= s@.subrange(a as int, hi as int));
    }
    let mut b = hi;
    while b > a && is_white_space_char(chars[b - 1])
        invariant
            a <= b <= hi,
            hi <= chars@.len(),
            chars@ == s@,
            forall|i: int| b <= i < hi ==> is_white_space(#[trigger] chars@[i]),
        decreases b - a,
    {
        b -= 1;
    }
    proof {
        let q = s@.subrange(a as int, hi as int);
        assert forall|i: int| b - a <= i < q.len() implies is_white_space(#[trigger] q[i]) by {
            assert(q[i] == chars@[a + i]);
        }
        lemma_trim_end(q, b - a);
        assert(q.take(b - a) =~= s@.subrange(a as int, b as int));
    }
    let piece = s.substring_char(a, b);
    piece.to_string()
}

/// The trimmed pieces of `s` between commas, as strings.
pub fn comma_pieces(s: &str) -> (r: Vec<String>)
    ensures
        r@.map_values(|p: String| p@) == comma_parts(s@),
{
    let chars = chars_of(s);
    let n = chars.len();
    let mut out: Vec<String> = Vec::new();
    let ghost mut done: Seq<Seq<char>> = Seq::empty();
    let mut start: usize = 0;
    let mut k: usize = 0;
    proof {
        assert(s@.take(0) =~= Seq::<char>::empty());
        assert(split_commas(s@.take(0)) == done.push(s@.subrange(0, 0)));
    }
    while k < n
        invariant
            k <= n,
            n == s@.len(),
            chars@ == s@,
            start <= k,
            split_commas(s@.take(k as int)) == done.push(s@.subrange(start as int, k as int)),
            out@.map_values(|p: String| p@) == done.map_values(|p: Seq<char>| trim(p)),
        decreases n - k,
    {
        let ghost t = s@.take(k + 1);
        proof {
            assert(t.drop_last() =~= s@.take(k as int));
            assert(t.last() == chars@[k as int]);
        }
        if chars[k] == ',' {
            let piece = trimmed_piece(s, &chars, start, k);
            let ghost old_out = out@;
            out.push(piece);
            proof {
                let cur = s@.subrange(start as int, k as int);
                assert(out@.map_values(|p: String| p@) =~= old_out.map_values(|p: String| p@).push(
                    trim(cur),
                ));
                assert(done.push(cur).map_values(|p: Seq<char>| trim(p)) =~= done.map_values(
                    |p: Seq<char>| trim(p),
                ).push(trim(cur)));
                done = done.push(cur);
                assert(s@.subrange(k + 1, k + 1) =~= Seq::<char>::empty());
            }
            start = k + 1;
        } else {
            proof {
                assert(s@.subrange(start as int, k + 1) =~= s@.subrange(start as int, k as int).push(
                    chars@[k as int],
                ));
                assert(done.push(s@.subrange(start as int, k as int)).update(
                    done.len() as int,
                    s@.subrange(start as int, k + 1),
                ) =~= done.push(s@.subrange(start as int, k + 1)));
            }
        }
        k += 1;
    }
    let piece = trimmed_piece(s, &chars, start, n);
    let ghost old_out = out@;
    out.push(piece);
    proof {
        assert(s@.take(n as int) =~= s@);
        let cur = s@.subrange(start as int, n as int);
        assert(out@.map_values(|p: String| p@) =~= old_out.map_values(|p: String| p@).push(trim(cur)));
        assert(done.push(cur).map_values(|p: Seq<char>| trim(p)) =~= done.map_values(
            |p: Seq<char>| trim(p),
        ).push(trim(cur)));
    }
    out
}

} // verus!
