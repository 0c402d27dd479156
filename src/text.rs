use vstd::prelude::*;

verus! {

/// The fields of `s` separated by `;`, as `str::split(';')` gives them:
/// always at least one field, empty fields kept.
pub open spec fn split_fields(s: Seq<char>) -> Seq<Seq<char>>
    decreases s.len(),
{
    if s.len() == 0 {
        seq![Seq::empty()]
    } else {
        let prev = split_fields(s.drop_last());
        if s.last() == ';' {
            prev.push(Seq::empty())
        } else {
            prev.update(prev.len() - 1, prev.last().push(s.last()))
        }
    }
}

/// The views of a sequence of character vectors.
pub open spec fn field_views(v: Seq<Vec<char>>) -> Seq<Seq<char>> {
    v.map_values(|f: Vec<char>| f@)
}

/// `needle` occurs in `hay` as a contiguous run.
pub open spec fn contains_seq(hay: Seq<char>, needle: Seq<char>) -> bool {
    exists|i: int|
        0 <= i && i + needle.len() <= hay.len() && #[trigger] hay.subrange(i, i + needle.len())
            == needle
}

pub open spec fn is_digit(c: char) -> bool {
    '0' <= c && c <= '9'
}

pub open spec fn all_digits(s: Seq<char>) -> bool {
    forall|i: int| 0 <= i < s.len() ==> is_digit(#[trigger] s[i])
}

/// The decimal value of a run of digits.
pub open spec fn digits_value(s: Seq<char>) -> int
    decreases s.len(),
{
    if s.len() == 0 {
        0
    } else {
        digits_value(s.drop_last()) * 10 + (s.last() as u32 - '0' as u32)
    }
}

/// A signed 32-bit integer in decimal, as `str::parse::<i32>` reads it: an
/// optional `+` or `-`, then one or more digits, the value within range.
pub open spec fn parse_i32_spec(s: Seq<char>) -> Option<i32> {
    let signed = s.len() > 0 && (s[0] == '-' || s[0] == '+');
    let d = if signed {
        s.drop_first()
    } else {
        s
    };
    let v = if s.len() > 0 && s[0] == '-' {
        -digits_value(d)
    } else {
        digits_value(d)
    };
    if d.len() > 0 && all_digits(d) && i32::MIN <= v <= i32::MAX {
        Some(v as i32)
    } else {
        None
    }
}

pub proof fn lemma_split_nonempty(s: Seq<char>)
    ensures
        split_fields(s).len() >= 1,
    decreases s.len(),
{
    if s.len() > 0 {
        lemma_split_nonempty(s.drop_last());
    }
}

proof fn lemma_digits_mono(s: Seq<char>, k: int)
    requires
        all_digits(s),
        0 <= k <= s.len(),
    ensures
        digits_value(s) >= digits_value(s.take(k)) >= 0,
    decreases s.len(),
{
    if s.len() > 0 {
        let p = s.drop_last();
        assert(all_digits(p)) by {
            assert forall|i: int| 0 <= i < p.len() implies is_digit(#[trigger] p[i]) by {
                assert(p[i] == s[i]);
            }
        }
        assert(is_digit(s[s.len() - 1]));
        if k == s.len() {
            assert(s.take(k) =~= s);
            lemma_digits_mono(p, p.len() as int);
            assert(p.take(p.len() as int) =~= p);
        } else {
            lemma_digits_mono(p, k);
            assert(p.take(k) =~= s.take(k));
        }
    }
}

/// Splits `text` at every `;`.
pub fn split_fields_exec(text: &[char]) -> (r: Vec<Vec<char>>)
    ensures
        field_views(r@) == split_fields(text@),
{
    let mut done: Vec<Vec<char>> = Vec::new();
    let mut cur: Vec<char> = Vec::new();
    let mut i: usize = 0;
    assert(text@.take(0) =~= Seq::<char>::empty());
    assert(field_views(done@).push(cur@) =~= seq![Seq::<char>::empty()]);
    while i < text.len()
        invariant
            i <= text.len(),
            split_fields(text@.take(i as int)) == field_views(done@).push(cur@),
        decreases text.len() - i,
    {
        let c = text[i];
        let ghost prev = field_views(done@).push(cur@);
        assert(text@.take(i + 1).drop_last() =~= text@.take(i as int));
        assert(text@.take(i + 1).last() == c);
        if c == ';' {
            let ghost old_done = done@;
            done.push(cur);
            cur = Vec::new();
            assert(field_views(done@) =~= field_views(old_done).push(prev.last()));
            assert(field_views(done@).push(cur@) =~= prev.push(Seq::empty()));
        } else {
            cur.push(c);
            assert(field_views(done@).push(cur@) =~= prev.update(
                prev.len() - 1,
                prev.last().push(c),
            ));
        }
        i += 1;
    }
    assert(text@.take(text.len() as int) =~= text@);
    let ghost old_done = done@;
    done.push(cur);
    assert(field_views(done@) =~= field_views(old_done).push(cur@));
    done
}

/// Whether `hay` holds `needle` at position `at`.
fn matches_at(hay: &[char], needle: &[char], at: usize) -> (r: bool)
    requires
        at + needle@.len() <= hay@.len(),
    ensures
        r == (hay@.subrange(at as int, at + needle@.len()) == needle@),
{
    let mut j: usize = 0;
    while j < needle.len()
        invariant
            j <= needle.len(),
            at + needle@.len() <= hay@.len(),
            hay@.len() == hay.len(),
            forall|k: int| 0 <= k < j ==> hay@[at + k] == needle@[k],
        decreases needle.len() - j,
    {
        if hay[at + j] != needle[j] {
            assert(hay@.subrange(at as int, at + needle@.len())[j as int] != needle@[j as int]);
            return false;
        }
        j += 1;
    }
    assert(hay@.subrange(at as int, at + needle@.len()) =~= needle@);
    true
}

/// Whether `needle` occurs in `hay`.
pub fn contains_exec(hay: &[char], needle: &[char]) -> (r: bool)
    ensures
        r == contains_seq(hay@, needle@),
{
    if needle.len() > hay.len() {
        return false;
    }
    let last = hay.len() - needle.len();
    let mut i: usize = 0;
    while i <= last
        invariant
            last == hay.len() - needle.len(),
            i <= last + 1,
            forall|k: int|
                0 <= k < i ==> #[trigger] hay@.subrange(k, k + needle@.len()) != needle@,
        decreases last - i,
    {
        if matches_at(hay, needle, i) {
            return true;
        }
        if i == last {
            return false;
        }
        i += 1;
    }
    false
}

/// Reads a signed 32-bit decimal integer.
pub fn parse_i32(s: &[char]) -> (r: Option<i32>)
    ensures
        r == parse_i32_spec(s@),
{
    let n = s.len();
    let neg = n > 0 && s[0] == '-';
    let start: usize = if n > 0 && (s[0] == '-' || s[0] == '+') {
        1
    } else {
        0
    };
    let ghost d = s@.subrange(start as int, n as int);
    assert(d =~= (if start == 1 {
        s@.drop_first()
    } else {
        s@
    }));
    if start == n {
        return None;
    }
    let mut acc: u64 = 0;
    let mut i: usize = start;
    assert(d.take(0) =~= Seq::<char>::empty());
    while i < n
        invariant
            start <= i <= n,
            n == s@.len(),
            d == s@.subrange(start as int, n as int),
            d == (if start == 1 {
                s@.drop_first()
            } else {
                s@
            }),
            start == 1 <==> (s@.len() > 0 && (s@[0] == '-' || s@[0] == '+')),
            start <= 1,
            neg == (s@.len() > 0 && s@[0] == '-'),
            acc == digits_value(d.take(i - start)),
            acc <= 2147483648,
            forall|k: int| 0 <= k < i - start ==> is_digit(#[trigger] d[k]),
        decreases n - i,
    {
        let c = s[i];
        assert(d[i - start] == c);
        if !('0' <= c && c <= '9') {
            assert(!is_digit(d[i - start]));
            assert(!all_digits(d));
            return None;
        }
        assert(d.take(i + 1 - start).drop_last() =~= d.take(i - start));
        assert(d.take(i + 1 - start).last() == c);
        acc = acc * 10 + (c as u64 - '0' as u64);
        assert(acc == digits_value(d.take(i + 1 - start)));
        i += 1;
        if acc > 2147483648 {
            proof {
                if all_digits(d) {
                    lemma_digits_mono(d, (i - start) as int);
                    assert(digits_value(d) > 2147483648);
                }
            }
            return None;
        }
    }
    assert(d.take(n - start) =~= d);
    assert(all_digits(d));
    if neg {
        Some((0i64 - acc as i64) as i32)
    } else if acc > 2147483647 {
        None
    } else {
        Some(acc as i32)
    }
}

} // verus!

verus! {

/// A text without `;` is one field.
pub proof fn lemma_split_single(w: Seq<char>)
    requires
        forall|i: int| 0 <= i < w.len() ==> #[trigger] w[i] != ';',
    ensures
        split_fields(w) == seq![w],
    decreases w.len(),
{
    if w.len() > 0 {
        let p = w.drop_last();
        assert forall|i: int| 0 <= i < p.len() implies #[trigger] p[i] != ';' by {
            assert(p[i] == w[i]);
        }
        lemma_split_single(p);
        assert(w.last() == w[w.len() - 1]);
        assert(p.push(w.last()) =~= w);
        assert(seq![p].update(0, w) =~= seq![w]);
    } else {
        assert(w =~= Seq::<char>::empty());
    }
}

/// Joining two texts with `;` joins their fields.
pub proof fn lemma_split_join(a: Seq<char>, b: Seq<char>)
    ensures
        split_fields(a + seq![';'] + b) == split_fields(a) + split_fields(b),
    decreases b.len(),
{
    let x = a + seq![';'];
    if b.len() == 0 {
        assert(x + b =~= x);
        assert(x.drop_last() =~= a);
        assert(split_fields(a).push(Seq::empty()) =~= split_fields(a) + split_fields(b));
    } else {
        let bp = b.drop_last();
        lemma_split_join(a, bp);
        lemma_split_nonempty(bp);
        lemma_split_nonempty(a);
        assert((x + b).drop_last() =~= x + bp);
        assert((x + b).last() == b.last());
        let sa = split_fields(a);
        let sb = split_fields(bp);
        if b.last() == ';' {
            assert((sa + sb).push(Seq::empty()) =~= sa + sb.push(Seq::empty()));
        } else {
            assert((sa + sb).update(sa.len() + sb.len() - 1, sb.last().push(b.last())) =~= sa
                + sb.update(sb.len() - 1, sb.last().push(b.last())));
        }
    }
}

/// A text holds any text that ends it.
pub proof fn lemma_contains_suffix(pre: Seq<char>, needle: Seq<char>)
    ensures
        contains_seq(pre + needle, needle),
{
    let h = pre + needle;
    assert(h.subrange(pre.len() as int, pre.len() + needle.len() as int) =~= needle);
}

/// The first field of a text that starts with a run without `;` starts with
/// that run.
pub proof fn lemma_split_lead(a: Seq<char>, b: Seq<char>)
    requires
        forall|i: int| 0 <= i < a.len() ==> #[trigger] a[i] != ';',
    ensures
        split_fields(a + b).len() >= 1,
        split_fields(a + b)[0].len() >= a.len(),
        split_fields(a + b)[0].take(a.len() as int) == a,
    decreases b.len(),
{
    lemma_split_nonempty(a + b);
    if b.len() == 0 {
        assert(a + b =~= a);
        lemma_split_single(a);
        assert(a.take(a.len() as int) =~= a);
    } else {
        let bp = b.drop_last();
        lemma_split_lead(a, bp);
        lemma_split_nonempty(a + bp);
        assert((a + b).drop_last() =~= a + bp);
        assert((a + b).last() == b.last());
        let prev = split_fields(a + bp);
        if b.last() != ';' && prev.len() == 1 {
            let g = prev[0].push(b.last());
            assert(g.take(a.len() as int) =~= prev[0].take(a.len() as int));
        }
    }
}

} // verus!
