//! Text helpers: comparison, decimal numbers, and key/value field lists.

use vstd::prelude::*;
use vstd::std_specs::iter::IteratorSpec;
use vstd::string::{StrSliceExecFns, StringExecFns, StringSliceAdditionalSpecFns};

verus! {

/// Whether two strings hold the same text.
pub fn same_text(a: &str, b: &str) -> (same: bool)
    ensures
        same == (a@ == b@),
{
    let x = a.as_bytes();
    let y = b.as_bytes();
    proof {
        vstd::utf8::encode_utf8_decode_utf8(a@);
        vstd::utf8::encode_utf8_decode_utf8(b@);
    }
    if x.len() != y.len() {
        return false;
    }
    let mut i: usize = 0;
    while i < x.len()
        invariant
            i <= x.len(),
            x.len() == y.len(),
            x@ == a.spec_bytes(),
            y@ == b.spec_bytes(),
            forall|j: int| 0 <= j < i ==> x@[j] == y@[j],
        decreases x.len() - i,
    {
        if x[i] != y[i] {
            return false;
        }
        i += 1;
    }
    assert(x@ =~= y@);
    true
}


/// Whether a character is one of the ten decimal digits.
pub open spec fn is_digit(c: char) -> bool {
    48 <= c as int <= 57
}

/// The decimal digit that stands for `d`, for `d` below ten.
pub open spec fn digit_char(d: int) -> char {
    (48 + d) as char
}

/// The number that a sequence of decimal digits denotes.
pub open spec fn digits_value(s: Seq<char>) -> int
    decreases s.len(),
{
    if s.len() == 0 {
        0
    } else {
        digits_value(s.drop_last()) * 10 + (s.last() as int - 48)
    }
}

/// Whether every character is a decimal digit.
pub open spec fn all_digits(s: Seq<char>) -> bool {
    forall|i: int| 0 <= i < s.len() ==> is_digit(#[trigger] s[i])
}

/// The integer that a text denotes: one or more decimal digits, with an
/// optional minus sign in front; any other text denotes none.
pub open spec fn parsed_int(s: Seq<char>) -> Option<int> {
    if s.len() > 0 && s[0] == '-' {
        if s.len() > 1 && all_digits(s.skip(1)) {
            Some(-digits_value(s.skip(1)))
        } else {
            None
        }
    } else if s.len() > 0 && all_digits(s) {
        Some(digits_value(s))
    } else {
        None
    }
}

/// The 32-bit integer that a text denotes, if it denotes an integer and
/// that integer fits.
pub open spec fn parsed_i32(s: Seq<char>) -> Option<i32> {
    match parsed_int(s) {
        Some(v) => if i32::MIN <= v <= i32::MAX {
            Some(v as i32)
        } else {
            None
        },
        None => None,
    }
}

/// The decimal digits of a natural number, without leading zeros.
pub open spec fn decimal(n: nat) -> Seq<char>
    decreases n,
{
    if n < 10 {
        seq![digit_char(n as int)]
    } else {
        decimal(n / 10).push(digit_char((n % 10) as int))
    }
}

/// The decimal text of an integer.
pub open spec fn rendered_int(v: int) -> Seq<char> {
    if v < 0 {
        seq!['-'] + decimal((-v) as nat)
    } else {
        decimal(v as nat)
    }
}

proof fn lemma_digits_nonnegative(s: Seq<char>)
    requires
        all_digits(s),
    ensures
        digits_value(s) >= 0,
    decreases s.len(),
{
    if s.len() > 0 {
        assert(all_digits(s.drop_last())) by {
            assert forall|i: int| 0 <= i < s.drop_last().len() implies is_digit(
                #[trigger] s.drop_last()[i],
            ) by {
                assert(s.drop_last()[i] == s[i]);
            }
        }
        lemma_digits_nonnegative(s.drop_last());
        assert(is_digit(s[s.len() - 1]));
    }
}

/// A prefix of a digit sequence denotes no more than the whole.
proof fn lemma_digits_prefix(s: Seq<char>, k: int)
    requires
        all_digits(s),
        0 <= k <= s.len(),
    ensures
        0 <= digits_value(s.take(k)) <= digits_value(s),
    decreases s.len() - k,
{
    assert(all_digits(s.take(k))) by {
        assert forall|i: int| 0 <= i < s.take(k).len() implies is_digit(#[trigger] s.take(k)[i]) by {
            assert(s.take(k)[i] == s[i]);
        }
    }
    lemma_digits_nonnegative(s.take(k));
    if k == s.len() {
        assert(s.take(k) =~= s);
    } else {
        lemma_digits_prefix(s, k + 1);
        assert(s.take(k + 1).drop_last() =~= s.take(k));
        assert(is_digit(s.take(k + 1)[k]));
    }
}

/// Parses a decimal integer that fits in 32 bits.
pub fn parse_int(s: &str) -> (parsed: Option<i32>)
    ensures
        parsed == parsed_i32(s@),
{
    let n = s.unicode_len();
    if n == 0 {
        return None;
    }
    let negative = s.get_char(0) == '-';
    let start: usize = if negative {
        1
    } else {
        0
    };
    if start == n {
        return None;
    }
    let ghost digits = s@.skip(start as int);
    assert(!negative ==> digits =~= s@);
    let mut acc: i64 = 0;
    let mut i: usize = start;
    assert(digits.take(0) =~= Seq::<char>::empty());
    while i < n
        invariant
            start <= i <= n,
            n == s@.len(),
            digits == s@.skip(start as int),
            negative <==> s@[0] == '-',
            start == if negative { 1usize } else { 0usize },
            !negative ==> digits == s@,
            all_digits(digits.take(i - start)),
            acc == digits_value(digits.take(i - start)),
            0 <= acc <= 2147483648,
        decreases n - i,
    {
        let c = s.get_char(i);
        let u: u32 = c as u32;
        assert(digits[i - start] == c);
        if u < 48 || u > 57 {
            assert(!all_digits(digits));
            return None;
        }
        proof {
            assert(digits.take(i - start + 1).drop_last() =~= digits.take(i - start));
            assert(digits.take(i - start + 1).last() == c);
            assert(all_digits(digits.take(i - start + 1))) by {
                assert forall|j: int| 0 <= j < i - start + 1 implies is_digit(
                    #[trigger] digits.take(i - start + 1)[j],
                ) by {
                    if j < i - start {
                        assert(digits.take(i - start)[j] == digits[j]);
                    }
                }
            }
        }
        let d: i64 = (u - 48) as i64;
        acc = acc * 10 + d;
        if acc > 2147483648 {
            proof {
                if all_digits(digits) {
                    lemma_digits_prefix(digits, i - start + 1);
                }
            }
            return None;
        }
        i += 1;
    }
    assert(digits.take(n - start) =~= digits);
    if negative {
        Some((0 - acc) as i32)
    } else if acc > 2147483647 {
        None
    } else {
        Some(acc as i32)
    }
}

fn digit_text(d: u64) -> (t: &'static str)
    requires
        d < 10,
    ensures
        t@ == seq![digit_char(d as int)],
{
    proof {
        reveal_strlit("0");
        reveal_strlit("1");
        reveal_strlit("2");
        reveal_strlit("3");
        reveal_strlit("4");
        reveal_strlit("5");
        reveal_strlit("6");
        reveal_strlit("7");
        reveal_strlit("8");
        reveal_strlit("9");
    }
    let t = if d == 0 {
        "0"
    } else if d == 1 {
        "1"
    } else if d == 2 {
        "2"
    } else if d == 3 {
        "3"
    } else if d == 4 {
        "4"
    } else if d == 5 {
        "5"
    } else if d == 6 {
        "6"
    } else if d == 7 {
        "7"
    } else if d == 8 {
        "8"
    } else {
        "9"
    };
    assert(t@ =~= seq![digit_char(d as int)]);
    t
}

/// Writes a natural number in decimal.
pub fn render_nat(n: u64) -> (text: String)
    ensures
        text@ == decimal(n as nat),
    decreases n,
{
    if n < 10 {
        digit_text(n).to_owned()
    } else {
        let mut text = render_nat(n / 10);
        text.append(digit_text(n % 10));
        assert(text@ =~= decimal((n / 10) as nat).push(digit_char((n % 10) as int)));
        text
    }
}

/// Writes a 32-bit integer in decimal.
pub fn render_int(v: i32) -> (text: String)
    ensures
        text@ == rendered_int(v as int),
{
    if v < 0 {
        let magnitude: u64 = (0 - (v as i64)) as u64;
        proof {
            reveal_strlit("-");
        }
        let mut text = "-".to_owned();
        let digits = render_nat(magnitude);
        text.append(digits.as_str());
        assert(text@ =~= seq!['-'] + decimal((-(v as int)) as nat));
        text
    } else {
        render_nat(v as u64)
    }
}

proof fn lemma_decimal_digits(n: nat)
    ensures
        decimal(n).len() > 0,
        all_digits(decimal(n)),
        digits_value(decimal(n)) == n,
    decreases n,
{
    if n < 10 {
        assert(decimal(n).drop_last() =~= Seq::<char>::empty());
        assert(digits_value(decimal(n).drop_last()) == 0);
    } else {
        lemma_decimal_digits(n / 10);
        assert(decimal(n).drop_last() =~= decimal(n / 10));
        assert forall|i: int| 0 <= i < decimal(n).len() implies is_digit(
            #[trigger] decimal(n)[i],
        ) by {
            if i < decimal(n).len() - 1 {
                assert(decimal(n)[i] == decimal(n / 10)[i]);
            }
        }
    }
}

/// Reading back what was written gives the number that was written.
pub proof fn law_parse_inverts_render(v: int)
    ensures
        parsed_int(rendered_int(v)) == Some(v),
{
    if v < 0 {
        let n = (-v) as nat;
        lemma_decimal_digits(n);
        assert(rendered_int(v).skip(1) =~= decimal(n));
        assert(rendered_int(v)[0] == '-');
    } else {
        lemma_decimal_digits(v as nat);
        assert(is_digit(decimal(v as nat)[0]));
    }
}

/// The views of a list of key/value pairs.
pub open spec fn pairs(v: Seq<(String, String)>) -> Seq<(Seq<char>, Seq<char>)> {
    v.map_values(|p: (String, String)| (p.0@, p.1@))
}

/// The keys of a list of key/value pairs, in order.
pub open spec fn keys(fields: Seq<(Seq<char>, Seq<char>)>) -> Seq<Seq<char>> {
    fields.map_values(|p: (Seq<char>, Seq<char>)| p.0)
}

/// The value of the first pair whose key is `key`, if there is one.
pub open spec fn field(fields: Seq<(Seq<char>, Seq<char>)>, key: Seq<char>) -> Option<Seq<char>> {
    match keys(fields).index_of_first(key) {
        Some(i) => Some(fields[i].1),
        None => None,
    }
}

/// Looks a key up in a list of key/value pairs; the first match counts.
pub fn lookup<'a>(fields: &'a Vec<(String, String)>, key: &str) -> (value: Option<&'a str>)
    ensures
        match value {
            Some(v) => field(pairs(fields@), key@) == Some(v@),
            None => field(pairs(fields@), key@) is None,
        },
{
    let mut i: usize = 0;
    while i < fields.len()
        invariant
            i <= fields.len(),
            forall|j: int| 0 <= j < i ==> keys(pairs(fields@))[j] != key@,
        decreases fields.len() - i,
    {
        if same_text(fields[i].0.as_str(), key) {
            proof {
                assert(keys(pairs(fields@))[i as int] == key@);
                keys(pairs(fields@)).index_of_first_ensures(key@);
            }
            return Some(fields[i].1.as_str());
        }
        i += 1;
    }
    proof {
        keys(pairs(fields@)).index_of_first_ensures(key@);
    }
    None
}

/// One line of a payload: the key, `=`, the number of characters of the
/// value, `:`, the value, and a line feed.
pub open spec fn line(key: Seq<char>, value: Seq<char>) -> Seq<char> {
    key + "="@ + decimal(value.len()) + ":"@ + value + "\n"@
}

/// The payload text of a list of key/value pairs: one line for each pair,
/// in order.
pub open spec fn encoded(fields: Seq<(Seq<char>, Seq<char>)>) -> Seq<char>
    decreases fields.len(),
{
    if fields.len() == 0 {
        Seq::empty()
    } else {
        encoded(fields.drop_last()) + line(fields.last().0, fields.last().1)
    }
}

/// Writes a list of key/value pairs as payload text.
pub fn encode(fields: &Vec<(String, String)>) -> (text: String)
    ensures
        text@ == encoded(pairs(fields@)),
{
    let mut text = String::new();
    let mut i: usize = 0;
    assert(pairs(fields@).take(0) =~= Seq::empty());
    while i < fields.len()
        invariant
            i <= fields.len(),
            text@ == encoded(pairs(fields@).take(i as int)),
        decreases fields.len() - i,
    {
        let key = fields[i].0.as_str();
        let value = fields[i].1.as_str();
        let count = value.unicode_len();
        let ghost before = text@;
        text.append(key);
        text.append("=");
        text.append(render_nat(count as u64).as_str());
        text.append(":");
        text.append(value);
        text.append("\n");
        proof {
            let p = pairs(fields@);
            assert(p.take(i + 1).drop_last() =~= p.take(i as int));
            assert(p.take(i + 1).last() == p[i as int]);
            assert(text@ =~= before + line(key@, value@));
        }
        i += 1;
    }
    assert(pairs(fields@).take(fields@.len() as int) =~= pairs(fields@));
    text
}

/// Adds one key/value pair at the end of a list.
pub fn put(out: &mut Vec<(String, String)>, key: &str, value: &str)
    ensures
        pairs(final(out)@) == pairs(old(out)@).push((key@, value@)),
{
    out.push((key.to_owned(), value.to_owned()));
    assert(pairs(out@) =~= pairs(old(out)@).push((key@, value@)));
}

/// The characters of a text, in order.
pub fn characters(s: &str) -> (v: Vec<char>)
    ensures
        v@ == s@,
{
    broadcast use vstd::string::group_string_axioms;

    let mut v: Vec<char> = Vec::new();
    let mut it = s.chars();
    loop
        invariant
            v@ + it.remaining() == s@,
            it.obeys_prophetic_iter_laws(),
            it.decrease() is Some,
        ensures
            v@ == s@,
        decreases it.decrease()->0,
    {
        match it.next() {
            Some(c) => {
                v.push(c);
                assert(v@ + it.remaining() =~= s@);
            },
            None => {
                assert(v@ =~= s@);
                break ;
            },
        }
    }
    v
}

/// The first line of a payload text: its key, its value, and how many
/// characters the line takes. The key ends at the first `=`; the digits up
/// to the next `:` count the characters of the value; a line feed follows
/// the value.
pub open spec fn first_line(t: Seq<char>) -> Option<(Seq<char>, Seq<char>, int)> {
    match t.index_of_first('=') {
        None => None,
        Some(e) => match t.skip(e + 1).index_of_first(':') {
            None => None,
            Some(c) => {
                let digits = t.subrange(e + 1, e + 1 + c);
                let start = e + c + 2;
                let end = start + digits_value(digits);
                if c == 0 || !all_digits(digits) || end >= t.len() || t[end] != '\n' {
                    None
                } else {
                    Some((t.take(e), t.subrange(start, end), end + 1))
                }
            },
        },
    }
}

/// The key/value pairs that a payload text holds, if it is made of whole
/// lines.
pub open spec fn decoded(t: Seq<char>) -> Option<Seq<(Seq<char>, Seq<char>)>>
    decreases t.len(),
{
    if t.len() == 0 {
        Some(Seq::empty())
    } else {
        match first_line(t) {
            None => None,
            Some((key, value, used)) => if 0 < used <= t.len() {
                match decoded(t.skip(used)) {
                    None => None,
                    Some(more) => Some(seq![(key, value)] + more),
                }
            } else {
                None
            },
        }
    }
}

/// The pairs read so far, followed by what the rest of the text holds.
pub open spec fn continued(
    head: Seq<(Seq<char>, Seq<char>)>,
    rest: Option<Seq<(Seq<char>, Seq<char>)>>,
) -> Option<Seq<(Seq<char>, Seq<char>)>> {
    match rest {
        None => None,
        Some(more) => Some(head + more),
    }
}

/// The code of a character is the same number as a `u32` and as an `int`.
proof fn lemma_char_code(c: char)
    ensures
        c as int == (c as u32) as int,
{
}

fn read_line(text: &str, cs: &Vec<char>, pos: usize) -> (line: Option<(String, String, usize)>)
    requires
        cs@ == text@,
        pos < cs.len(),
    ensures
        match line {
            Some((key, value, next)) => pos < next <= cs.len() && first_line(text@.skip(pos as int))
                == Some((key@, value@, next - pos)),
            None => first_line(text@.skip(pos as int)) is None,
        },
{
    let n = cs.len();
    let ghost t = text@.skip(pos as int);
    let mut e: usize = pos;
    while e < n && cs[e] != '='
        invariant
            pos <= e <= n,
            n == cs.len(),
            cs@ == text@,
            t == text@.skip(pos as int),
            forall|j: int| 0 <= j < e - pos ==> t[j] != '=',
        decreases n - e,
    {
        e += 1;
    }
    proof {
        t.index_of_first_ensures('=');
    }
    if e == n {
        return None;
    }
    proof {
        assert(t[e - pos] == '=');
        assert(t.index_of_first('=') == Some((e - pos) as int));
    }
    let ghost u = t.skip(e - pos + 1);
    let mut c: usize = e + 1;
    let mut count: usize = 0;
    let mut too_long = false;
    assert(u.take(0) =~= Seq::<char>::empty());
    while c < n
        invariant
            pos <= e < c <= n,
            n == cs.len(),
            cs@ == text@,
            t == text@.skip(pos as int),
            u == t.skip(e - pos + 1),
            all_digits(u.take(c - e - 1)),
            !too_long ==> count == digits_value(u.take(c - e - 1)) && count <= n,
            too_long ==> exists|k: int| 0 <= k <= c - e - 1 && digits_value(u.take(k)) > n,
        ensures
            c < n ==> !is_digit(cs@[c as int]),
        decreases n - c,
    {
        let ch = cs[c];
        let code: u32 = ch as u32;
        if code < 48 || code > 57 {
            break ;
        }
        let d: usize = (code - 48) as usize;
        proof {
            assert(u[c - e - 1] == ch);
            lemma_char_code(ch);
            assert(is_digit(ch));
            assert(u.take(c - e).drop_last() =~= u.take(c - e - 1));
            assert(u.take(c - e).last() == ch);
            assert(all_digits(u.take(c - e))) by {
                assert forall|j: int| 0 <= j < c - e implies is_digit(#[trigger] u.take(c - e)[j]) by {
                    if j < c - e - 1 {
                        assert(u.take(c - e - 1)[j] == u[j]);
                    }
                }
            }
            assert(digits_value(u.take(c - e)) == digits_value(u.take(c - e - 1)) * 10 + d);
        }
        if !too_long {
            if count > n / 10 {
                too_long = true;
                proof {
                    assert(count * 10 + d > n) by (nonlinear_arith)
                        requires
                            count > n / 10,
                            d >= 0,
                    ;
                }
            } else {
                assert(count * 10 <= n) by (nonlinear_arith)
                    requires
                        count <= n / 10,
                ;
                let tens: usize = count * 10;
                if d > n - tens {
                    too_long = true;
                } else {
                    count = tens + d;
                }
            }
        }
        c += 1;
    }
    proof {
        u.index_of_first_ensures(':');
        assert forall|j: int| 0 <= j < c - e - 1 implies u[j] != ':' by {
            assert(is_digit(u.take(c - e - 1)[j]));
        }
    }
    if c == n {
        proof {
            assert(u.len() == c - e - 1);
        }
        return None;
    }
    if cs[c] != ':' {
        proof {
            assert(u[c - e - 1] == cs@[c as int]);
            if let Some(f) = u.index_of_first(':') {
                assert(u[f] == ':');
                assert(f > c - e - 1);
                let digits = t.subrange(e - pos + 1, e - pos + 1 + f);
                assert(digits[c - e - 1] == u[c - e - 1]);
                assert(!is_digit(digits[c - e - 1]));
            }
        }
        return None;
    }
    proof {
        assert(u[c - e - 1] == ':');
        assert(u.index_of_first(':') == Some((c - e - 1) as int));
        assert(t.subrange(e - pos + 1, e - pos + 1 + (c - e - 1)) =~= u.take(c - e - 1));
    }
    if c == e + 1 {
        return None;
    }
    if too_long {
        proof {
            let k = choose|k: int| 0 <= k <= c - e - 1 && digits_value(u.take(k)) > n;
            lemma_digits_prefix(u.take(c - e - 1), k);
            assert(u.take(c - e - 1).take(k) =~= u.take(k));
        }
        return None;
    }
    let start: usize = c + 1;
    if count >= n - start {
        return None;
    }
    let end: usize = start + count;
    if cs[end] != '\n' {
        proof {
            assert(t[end - pos] == cs@[end as int]);
        }
        return None;
    }
    let key = text.substring_char(pos, e).to_owned();
    let value = text.substring_char(start, end).to_owned();
    proof {
        assert(t[end - pos] == cs@[end as int]);
        assert(key@ =~= t.take(e - pos));
        assert(value@ =~= t.subrange(start - pos, end - pos));
    }
    Some((key, value, end + 1))
}

/// Reads the key/value pairs of a payload text.
pub fn decode(text: &str) -> (fields: Option<Vec<(String, String)>>)
    ensures
        match fields {
            Some(f) => decoded(text@) == Some(pairs(f@)),
            None => decoded(text@) is None,
        },
{
    let cs = characters(text);
    let n = cs.len();
    let mut out: Vec<(String, String)> = Vec::new();
    let mut pos: usize = 0;
    proof {
        assert(text@.skip(0) =~= text@);
        assert(pairs(out@) =~= Seq::empty());
        lemma_continued_empty(decoded(text@));
    }
    while pos < n
        invariant
            pos <= n,
            n == cs.len(),
            cs@ == text@,
            decoded(text@) == continued(pairs(out@), decoded(text@.skip(pos as int))),
        decreases n - pos,
    {
        let ghost t = text@.skip(pos as int);
        match read_line(text, &cs, pos) {
            None => {
                return None;
            },
            Some((key, value, next)) => {
                proof {
                    assert(t.skip(next - pos) =~= text@.skip(next as int));
                    let rest = decoded(text@.skip(next as int));
                    assert(pairs(out@.push((key, value))) =~= pairs(out@).push((key@, value@)));
                    if let Some(more) = rest {
                        assert(pairs(out@) + (seq![(key@, value@)] + more) =~= pairs(out@).push(
                            (key@, value@),
                        ) + more);
                    }
                }
                out.push((key, value));
                pos = next;
            },
        }
    }
    proof {
        assert(text@.skip(pos as int).len() == 0);
        assert(pairs(out@) + Seq::<(Seq<char>, Seq<char>)>::empty() =~= pairs(out@));
    }
    Some(out)
}

proof fn lemma_continued_empty(rest: Option<Seq<(Seq<char>, Seq<char>)>>)
    ensures
        continued(Seq::empty(), rest) == rest,
{
    if let Some(more) = rest {
        assert(Seq::<(Seq<char>, Seq<char>)>::empty() + more =~= more);
    }
}

proof fn lemma_encoded_front(p: (Seq<char>, Seq<char>), rest: Seq<(Seq<char>, Seq<char>)>)
    ensures
        encoded(seq![p] + rest) == line(p.0, p.1) + encoded(rest),
    decreases rest.len(),
{
    let all = seq![p] + rest;
    if rest.len() == 0 {
        assert(all.drop_last() =~= Seq::<(Seq<char>, Seq<char>)>::empty());
        assert(encoded(all.drop_last()) + line(p.0, p.1) =~= line(p.0, p.1) + encoded(rest));
    } else {
        lemma_encoded_front(p, rest.drop_last());
        assert(all.drop_last() =~= seq![p] + rest.drop_last());
        assert(all.last() == rest.last());
        assert((line(p.0, p.1) + encoded(rest.drop_last())) + line(rest.last().0, rest.last().1)
            =~= line(p.0, p.1) + (encoded(rest.drop_last()) + line(
            rest.last().0,
            rest.last().1,
        )));
    }
}

/// A line that is written is read back as it was, whatever follows it,
/// as long as its key holds no `=`.
proof fn lemma_first_line(key: Seq<char>, value: Seq<char>, tail: Seq<char>)
    requires
        !key.contains('='),
    ensures
        first_line(line(key, value) + tail) == Some((key, value, line(key, value).len() as int)),
        line(key, value).len() > 0,
{
    reveal_strlit("=");
    reveal_strlit(":");
    reveal_strlit("\n");
    let digits = decimal(value.len());
    lemma_decimal_digits(value.len());
    let t = line(key, value) + tail;
    let e = key.len() as int;
    assert("="@ =~= seq!['=']);
    assert(":"@ =~= seq![':']);
    assert("\n"@ =~= seq!['\n']);
    assert(t[e] == '=');
    assert forall|j: int| 0 <= j < e implies t[j] != '=' by {
        assert(t[j] == key[j]);
        assert(key.contains(key[j]));
    }
    t.index_of_first_ensures('=');
    assert(t.index_of_first('=') == Some(e));
    let u = t.skip(e + 1);
    let c = digits.len() as int;
    assert(u[c] == ':');
    assert forall|j: int| 0 <= j < c implies u[j] != ':' by {
        assert(u[j] == digits[j]);
        assert(is_digit(digits[j]));
    }
    u.index_of_first_ensures(':');
    assert(u.index_of_first(':') == Some(c));
    assert(t.subrange(e + 1, e + 1 + c) =~= digits);
    let start = e + c + 2;
    let end = start + value.len();
    assert(t[end] == '\n');
    assert(t.take(e) =~= key);
    assert(t.subrange(start, end) =~= value);
}

/// What is written is read back as it was: a list of pairs whose keys
/// hold no `=` is the list that its payload text holds.
pub proof fn law_decode_inverts_encode(fields: Seq<(Seq<char>, Seq<char>)>)
    requires
        forall|i: int| 0 <= i < fields.len() ==> !(#[trigger] fields[i]).0.contains('='),
    ensures
        decoded(encoded(fields)) == Some(fields),
    decreases fields.len(),
{
    if fields.len() > 0 {
        let p = fields[0];
        let rest = fields.skip(1);
        assert(seq![p] + rest =~= fields);
        lemma_encoded_front(p, rest);
        lemma_first_line(p.0, p.1, encoded(rest));
        assert forall|i: int| 0 <= i < rest.len() implies !(#[trigger] rest[i]).0.contains('=') by {
            assert(rest[i] == fields[i + 1]);
        }
        law_decode_inverts_encode(rest);
        let t = encoded(fields);
        assert(t.skip(line(p.0, p.1).len() as int) =~= encoded(rest));
    }
}

} // verus!
