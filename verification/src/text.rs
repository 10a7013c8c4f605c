use vstd::prelude::*;

verus! {

/// Appends one character to a string by calling `String::push`, which
/// vstd gives no specification. Trusted, not proved: the contract claims
/// what std documents, that the string afterwards holds its old characters
/// followed by `c`.
#[verifier::external_body]
pub(crate) fn push_char(s: &mut String, c: char)
    ensures
        final(s)@ == old(s)@.push(c),
{
    s.push(c);
}

/// Collects the characters of a string slice, in order.
pub fn chars_of(s: &str) -> (v: Vec<char>)
    ensures
        v@ == s@,
{
    let mut v: Vec<char> = Vec::new();
    for c in it: s.chars()
        invariant
            v@ == it.seq().take(it.index() as int),
    {
        v.push(c);
    }
    v
}

} // verus!

verus! {

/// The texts of `parts`, with `sep` between each two.
pub open spec fn join(parts: Seq<Seq<char>>, sep: Seq<char>) -> Seq<char>
    decreases parts.len(),
{
    if parts.len() == 0 {
        Seq::empty()
    } else if parts.len() == 1 {
        parts[0]
    } else {
        join(parts.drop_last(), sep) + sep + parts.last()
    }
}

/// The views of a list of strings.
pub open spec fn views(v: Seq<String>) -> Seq<Seq<char>> {
    v.map_values(|s: String| s@)
}

/// Appends `text` to `out`.
pub fn push_str(out: &mut String, text: &str)
    ensures
        final(out)@ == old(out)@ + text@,
{
    out.append(text);
}

/// Joins `parts` with `sep` between each two.
pub fn join_strings(parts: &Vec<String>, sep: &str) -> (r: String)
    ensures
        r@ == join(views(parts@), sep@),
{
    let mut out = String::new();
    let n = parts.len();
    for i in 0..n
        invariant
            n == parts.len(),
            out@ == join(views(parts@).take(i as int), sep@),
    {
        proof {
            let t = views(parts@).take(i + 1);
            assert(t.drop_last() =~= views(parts@).take(i as int));
            assert(t.last() == parts@[i as int]@);
        }
        if i > 0 {
            push_str(&mut out, sep);
        } else {
            assert(out@ =~= Seq::<char>::empty());
        }
        push_str(&mut out, parts[i].as_str());
        proof {
            if i == 0 {
                assert(out@ =~= parts@[0]@);
            }
        }
    }
    proof {
        assert(views(parts@).take(n as int) =~= views(parts@));
    }
    out
}

/// A string holding `v`'s characters in order.
pub fn string_from_chars(v: &Vec<char>) -> (r: String)
    ensures
        r@ == v@,
{
    let mut out = String::new();
    for i in 0..v.len()
        invariant
            out@ == v@.take(i as int),
    {
        push_char(&mut out, v[i]);
        assert(v@.take(i + 1) =~= v@.take(i as int).push(v@[i as int]));
    }
    assert(v@.take(v.len() as int) =~= v@);
    out
}

} // verus!

verus! {

/// The character of a decimal digit.
pub open spec fn digit(d: nat) -> char {
    ((d + 48) as u32) as char
}

/// The decimal numeral of `n`, without leading zeros.
pub open spec fn decimal(n: nat) -> Seq<char>
    decreases n,
{
    if n < 10 {
        seq![digit(n)]
    } else {
        decimal(n / 10).push(digit(n % 10))
    }
}

/// The character of decimal digit `d`.
pub fn digit_char(d: u64) -> (c: char)
    requires
        d < 10,
    ensures
        c == digit(d as nat),
{
    if d == 0 { '0' }
    else if d == 1 { '1' }
    else if d == 2 { '2' }
    else if d == 3 { '3' }
    else if d == 4 { '4' }
    else if d == 5 { '5' }
    else if d == 6 { '6' }
    else if d == 7 { '7' }
    else if d == 8 { '8' }
    else { '9' }
}

/// Appends the decimal numeral of `n`.
pub fn push_decimal(out: &mut String, n: u64)
    ensures
        final(out)@ == old(out)@ + decimal(n as nat),
    decreases n,
{
    if n >= 10 {
        push_decimal(out, n / 10);
    }
    push_char(out, digit_char(n % 10));
    proof {
        if n < 10 {
            assert(n % 10 == n);
        }
    }
}

} // verus!

verus! {

/// The character at position `i`.
pub fn char_at(v: &Vec<char>, i: usize) -> (c: char)
    requires
        i < v@.len(),
    ensures
        c == v@[i as int],
{
    v[i]
}

/// Whether `s` holds decimal digits only.
pub open spec fn all_digits(s: Seq<char>) -> bool {
    forall|i: int| 0 <= i < s.len() ==> 48 <= (#[trigger] s[i] as u32) <= 57
}

/// The number that the decimal digits `s` write.
pub open spec fn digits_value(s: Seq<char>) -> int
    decreases s.len(),
{
    if s.len() == 0 {
        0
    } else {
        digits_value(s.drop_last()) * 10 + (s.last() as u32 - 48)
    }
}

/// `s` read as a `u16`: an optional `+`, then at least one digit, and no
/// more than 65535.
pub open spec fn parsed_u16(s: Seq<char>) -> Option<u16> {
    let body = if s.len() > 0 && s[0] == '+' { s.skip(1) } else { s };
    if body.len() > 0 && all_digits(body) && digits_value(body) <= 0xffff {
        Some(digits_value(body) as u16)
    } else {
        None
    }
}

proof fn lemma_digits_grow(s: Seq<char>, k: int)
    requires
        all_digits(s),
        0 <= k <= s.len(),
    ensures
        digits_value(s.take(k)) <= digits_value(s),
        0 <= digits_value(s.take(k)),
    decreases s.len(),
{
    if s.len() > 0 {
        let t = s.drop_last();
        assert(all_digits(t)) by {
            assert forall|i: int| 0 <= i < t.len() implies 48 <= (#[trigger] t[i] as u32) <= 57 by {
                assert(t[i] == s[i]);
            }
        }
        assert(48 <= (s[s.len() - 1] as u32) <= 57);
        if k == s.len() {
            assert(s.take(k) =~= s);
            lemma_digits_grow(t, 0);
            assert(t.take(0) =~= s.take(0));
        } else {
            lemma_digits_grow(t, k);
            assert(t.take(k) =~= s.take(k));
            lemma_digits_grow(t, t.len() as int);
            assert(t.take(t.len() as int) =~= t);
        }
    } else {
        assert(s.take(k) =~= s);
    }
}

/// Reads `part` as a `u16`, as `str::parse` does.
pub fn parse_code(part: &Vec<char>) -> (r: Option<u16>)
    ensures
        r == parsed_u16(part@),
{
    let len = part.len();
    let start: usize = if len > 0 && part[0] == '+' { 1 } else { 0 };
    let ghost body = if part@.len() > 0 && part@[0] == '+' { part@.skip(1) } else { part@ };
    assert(body =~= part@.skip(start as int));
    if start >= len {
        return None;
    }
    let mut v: u32 = 0;
    for i in start..len
        invariant
            start < len,
            len == part@.len(),
            body =~= part@.skip(start as int),
            body == (if part@.len() > 0 && part@[0] == '+' { part@.skip(1) } else { part@ }),
            all_digits(body.take(i - start)),
            v as int == digits_value(body.take(i - start)),
            v <= 0xffff,
    {
        let c = part[i];
        let code = c as u32;
        if code < 48 || code > 57 {
            assert(body[i - start] == c);
            assert(!(48 <= (body[i - start] as u32) <= 57));
            assert(!all_digits(body));
            assert(parsed_u16(part@).is_none());
            return None;
        }
        proof {
            let t = body.take(i - start + 1);
            assert(t.drop_last() =~= body.take(i - start));
            assert(t.last() == c);
            assert(all_digits(t)) by {
                assert forall|j: int| 0 <= j < t.len() implies 48 <= (#[trigger] t[j] as u32) <= 57 by {
                    if j < t.len() - 1 {
                        assert(t[j] == body.take(i - start)[j]);
                    }
                }
            }
        }
        let nv: u32 = v * 10 + (code - 48);
        assert(nv == digits_value(body.take(i - start + 1)));
        v = nv;
        if v > 0xffff {
            proof {
                if all_digits(body) {
                    lemma_digits_grow(body, i - start + 1);
                    assert(digits_value(body) > 0xffff);
                }
                assert(parsed_u16(part@).is_none());
            }
            return None;
        }
    }
    assert(body.take(len - start) =~= body);
    Some(v as u16)
}

/// The fields of `s` between the separators `sep`, as `str::split` gives
/// them.
pub open spec fn split_on(s: Seq<char>, sep: char) -> Seq<Seq<char>>
    decreases s.len(),
{
    if s.len() == 0 {
        seq![Seq::empty()]
    } else {
        let fields = split_on(s.drop_last(), sep);
        if s.last() == sep {
            fields.push(Seq::empty())
        } else {
            fields.update(fields.len() - 1, fields.last().push(s.last()))
        }
    }
}

/// Splitting gives at least one field.
pub proof fn lemma_split_nonempty(s: Seq<char>, sep: char)
    ensures
        split_on(s, sep).len() >= 1,
    decreases s.len(),
{
    if s.len() > 0 {
        lemma_split_nonempty(s.drop_last(), sep);
    }
}

/// Splits `chars` at each `sep`, keeping empty fields.
pub fn split_chars(chars: &Vec<char>, sep: char) -> (fields: Vec<Vec<char>>)
    ensures
        fields@.len() == split_on(chars@, sep).len(),
        forall|i: int| 0 <= i < fields@.len() ==> (#[trigger] fields@[i])@ == split_on(chars@, sep)[i],
{
    let mut fields: Vec<Vec<char>> = Vec::new();
    let mut field: Vec<char> = Vec::new();
    for i in 0..chars.len()
        invariant
            split_on(chars@.take(i as int), sep).len() >= 1,
            fields@.len() + 1 == split_on(chars@.take(i as int), sep).len(),
            forall|k: int| 0 <= k < fields@.len() ==> (#[trigger] fields@[k])@ == split_on(chars@.take(i as int), sep)[k],
            field@ == split_on(chars@.take(i as int), sep).last(),
    {
        proof {
            assert(chars@.take(i + 1).drop_last() =~= chars@.take(i as int));
            lemma_split_nonempty(chars@.take(i + 1), sep);
        }
        let c = char_at(chars, i);
        if c == sep {
            fields.push(field);
            field = Vec::new();
            assert(field@ =~= Seq::<char>::empty());
        } else {
            field.push(c);
        }
    }
    fields.push(field);
    proof {
        assert(chars@.take(chars@.len() as int) =~= chars@);
    }
    fields
}

} // verus!
