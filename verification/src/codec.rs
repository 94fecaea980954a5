use vstd::prelude::*;
use crate::storage::{Info, InfoV, ObjectHash, ObjectHashV, views_of};

verus! {

// ---------------------------------------------------------------------------
// The persisted file format: one JSON object
//   {"info":{"id":S,"host":O,"timestamp":O},"records":[{"name":S,"hash":S},...]}
// where S is a quoted string with `"`, `\` and control characters escaped,
// and O is such a string or `null`. The spec functions below define the text
// exactly; the encoder produces it and the parser accepts it.
// ---------------------------------------------------------------------------

/// The lowercase hex digit for `n`.
pub open spec fn hex_digit(n: int) -> char {
    if n == 0 {
        '0'
    } else if n == 1 {
        '1'
    } else if n == 2 {
        '2'
    } else if n == 3 {
        '3'
    } else if n == 4 {
        '4'
    } else if n == 5 {
        '5'
    } else if n == 6 {
        '6'
    } else if n == 7 {
        '7'
    } else if n == 8 {
        '8'
    } else if n == 9 {
        '9'
    } else if n == 10 {
        'a'
    } else if n == 11 {
        'b'
    } else if n == 12 {
        'c'
    } else if n == 13 {
        'd'
    } else if n == 14 {
        'e'
    } else {
        'f'
    }
}

/// How one character appears inside a quoted JSON string.
pub open spec fn esc_char(c: char) -> Seq<char> {
    if c == '"' {
        seq!['\\', '"']
    } else if c == '\\' {
        seq!['\\', '\\']
    } else if (c as u32) < 32 {
        seq!['\\', 'u', '0', '0', hex_digit((c as u32) as int / 16), hex_digit((c as u32) as int % 16)]
    } else {
        seq![c]
    }
}

/// A string's characters, escaped.
pub open spec fn esc_seq(s: Seq<char>) -> Seq<char>
    decreases s.len(),
{
    if s.len() == 0 {
        Seq::empty()
    } else {
        esc_char(s[0]) + esc_seq(s.drop_first())
    }
}

/// A quoted, escaped JSON string.
pub open spec fn json_str(s: Seq<char>) -> Seq<char> {
    seq!['"'] + esc_seq(s) + seq!['"']
}

/// An optional string: `null` or a quoted string.
pub open spec fn json_opt(o: Option<Seq<char>>) -> Seq<char> {
    match o {
        None => seq!['n', 'u', 'l', 'l'],
        Some(s) => json_str(s),
    }
}

/// The info object.
pub open spec fn json_info(i: InfoV) -> Seq<char> {
    seq!['{', '"', 'i', 'd', '"', ':'] + json_str(i.id) + seq![',', '"', 'h', 'o', 's', 't', '"', ':']
        + json_opt(i.host) + seq![',', '"', 't', 'i', 'm', 'e', 's', 't', 'a', 'm', 'p', '"', ':']
        + json_opt(i.timestamp) + seq!['}']
}

/// One record object.
pub open spec fn json_record(o: ObjectHashV) -> Seq<char> {
    seq!['{', '"', 'n', 'a', 'm', 'e', '"', ':'] + json_str(o.name) + seq![
        ',',
        '"',
        'h',
        'a',
        's',
        'h',
        '"',
        ':',
    ] + json_str(o.hash) + seq!['}']
}

/// The record list's elements, comma separated; `first` says whether no
/// element was emitted yet.
pub open spec fn json_records_rest(rs: Seq<ObjectHashV>, first: bool) -> Seq<char>
    decreases rs.len(),
{
    if rs.len() == 0 {
        Seq::empty()
    } else {
        (if first {
            Seq::<char>::empty()
        } else {
            seq![',']
        }) + json_record(rs[0]) + json_records_rest(rs.drop_first(), false)
    }
}

/// The whole persisted request.
pub open spec fn json_request(i: InfoV, rs: Seq<ObjectHashV>) -> Seq<char> {
    seq!['{', '"', 'i', 'n', 'f', 'o', '"', ':'] + json_info(i) + seq![
        ',',
        '"',
        'r',
        'e',
        'c',
        'o',
        'r',
        'd',
        's',
        '"',
        ':',
        '[',
    ] + json_records_rest(rs, true) + seq![']', '}']
}

// ---------------------------------------------------------------------------
// Encoder
// ---------------------------------------------------------------------------

/// Relies on str::chars: iterating a string slice yields exactly its
/// characters, in order.
#[verifier::external_body]
pub(crate) fn str_chars(s: &str) -> (r: Vec<char>)
    ensures
        r@ == s@,
{
    s.chars().collect()
}

/// Relies on String::from_iter over characters: collecting characters builds
/// the string of exactly those characters, in order.
#[verifier::external_body]
pub(crate) fn chars_string(v: &Vec<char>) -> (r: String)
    ensures
        r@ == v@,
{
    v.iter().collect()
}

/// The lowercase hex digit for `n`.
fn hex_char(n: u32) -> (c: char)
    requires
        n < 16,
    ensures
        c == hex_digit(n as int),
{
    if n == 0 {
        '0'
    } else if n == 1 {
        '1'
    } else if n == 2 {
        '2'
    } else if n == 3 {
        '3'
    } else if n == 4 {
        '4'
    } else if n == 5 {
        '5'
    } else if n == 6 {
        '6'
    } else if n == 7 {
        '7'
    } else if n == 8 {
        '8'
    } else if n == 9 {
        '9'
    } else if n == 10 {
        'a'
    } else if n == 11 {
        'b'
    } else if n == 12 {
        'c'
    } else if n == 13 {
        'd'
    } else if n == 14 {
        'e'
    } else {
        'f'
    }
}

proof fn lemma_esc_seq_snoc(s: Seq<char>, c: char)
    ensures
        esc_seq(s.push(c)) == esc_seq(s) + esc_char(c),
    decreases s.len(),
{
    if s.len() == 0 {
        assert(s.push(c)[0] == c);
        assert(s.push(c).drop_first() =~= Seq::<char>::empty());
        assert(esc_seq(Seq::<char>::empty()) == Seq::<char>::empty());
        assert(esc_seq(s.push(c)) == esc_char(c) + esc_seq(Seq::<char>::empty()));
        assert(esc_char(c) + Seq::<char>::empty() =~= esc_char(c));
        assert(esc_seq(s) + esc_char(c) =~= esc_char(c));
    } else {
        assert(s.push(c)[0] == s[0]);
        assert(s.push(c).drop_first() =~= s.drop_first().push(c));
        lemma_esc_seq_snoc(s.drop_first(), c);
        assert(esc_seq(s.push(c)) == esc_char(s[0]) + (esc_seq(s.drop_first()) + esc_char(c)));
        assert(esc_char(s[0]) + (esc_seq(s.drop_first()) + esc_char(c)) =~= (esc_char(s[0])
            + esc_seq(s.drop_first())) + esc_char(c));
    }
}

/// Appends the escaped characters of `s`.
fn enc_escape(out: &mut Vec<char>, s: &str)
    ensures
        final(out)@ == old(out)@ + esc_seq(s@),
{
    let cs = str_chars(s);
    let ghost base = out@;
    let mut i: usize = 0;
    proof {
        assert(cs@.take(0) =~= Seq::<char>::empty());
        assert(esc_seq(cs@.take(0)) =~= Seq::<char>::empty());
        assert(out@ =~= base + esc_seq(cs@.take(0)));
    }
    while i < cs.len()
        invariant
            0 <= i <= cs@.len(),
            cs@ == s@,
            out@ == base + esc_seq(cs@.take(i as int)),
        decreases cs@.len() - i,
    {
        let c = cs[i];
        if c == '"' {
            out.push('\\');
            out.push('"');
        } else if c == '\\' {
            out.push('\\');
            out.push('\\');
        } else if (c as u32) < 32 {
            let code: u32 = c as u32;
            out.push('\\');
            out.push('u');
            out.push('0');
            out.push('0');
            out.push(hex_char(code / 16));
            out.push(hex_char(code % 16));
        } else {
            out.push(c);
        }
        proof {
            assert(out@ =~= base + esc_seq(cs@.take(i as int)) + esc_char(c));
            lemma_esc_seq_snoc(cs@.take(i as int), c);
            assert(cs@.take(i as int).push(c) =~= cs@.take(i as int + 1));
            assert(out@ =~= base + esc_seq(cs@.take(i as int + 1)));
        }
        i += 1;
    }
    proof {
        assert(cs@.take(cs@.len() as int) =~= cs@);
    }
}

/// Appends a quoted, escaped string.
fn enc_str(out: &mut Vec<char>, s: &str)
    ensures
        final(out)@ == old(out)@ + json_str(s@),
{
    out.push('"');
    enc_escape(out, s);
    out.push('"');
    proof {
        assert(out@ =~= old(out)@ + json_str(s@));
    }
}

/// Appends `null` or a quoted string.
fn enc_opt(out: &mut Vec<char>, o: &Option<String>)
    ensures
        final(out)@ == old(out)@ + json_opt(match o {
            Some(s) => Some(s@),
            None => None,
        }),
{
    match o {
        None => {
            out.push('n');
            out.push('u');
            out.push('l');
            out.push('l');
            proof {
                assert(out@ =~= old(out)@ + json_opt(None));
            }
        },
        Some(s) => {
            enc_str(out, s.as_str());
        },
    }
}

/// Appends the info object.
#[verifier::rlimit(60)]
fn enc_info(out: &mut Vec<char>, i: &Info)
    ensures
        final(out)@ == old(out)@ + json_info(i@),
{
    out.push('{');
    out.push('"');
    out.push('i');
    out.push('d');
    out.push('"');
    out.push(':');
    enc_str(out, i.id.as_str());
    out.push(',');
    out.push('"');
    out.push('h');
    out.push('o');
    out.push('s');
    out.push('t');
    out.push('"');
    out.push(':');
    enc_opt(out, &i.host);
    out.push(',');
    out.push('"');
    out.push('t');
    out.push('i');
    out.push('m');
    out.push('e');
    out.push('s');
    out.push('t');
    out.push('a');
    out.push('m');
    out.push('p');
    out.push('"');
    out.push(':');
    enc_opt(out, &i.timestamp);
    out.push('}');
    proof {
        assert(out@ =~= old(out)@ + json_info(i@));
    }
}

/// Appends one record object.
#[verifier::rlimit(60)]
fn enc_record(out: &mut Vec<char>, o: &ObjectHash)
    ensures
        final(out)@ == old(out)@ + json_record(o@),
{
    out.push('{');
    out.push('"');
    out.push('n');
    out.push('a');
    out.push('m');
    out.push('e');
    out.push('"');
    out.push(':');
    enc_str(out, o.name.as_str());
    out.push(',');
    out.push('"');
    out.push('h');
    out.push('a');
    out.push('s');
    out.push('h');
    out.push('"');
    out.push(':');
    enc_str(out, o.hash.as_str());
    out.push('}');
    proof {
        assert(out@ =~= old(out)@ + json_record(o@));
    }
}

proof fn lemma_records_rest_split(rs: Seq<ObjectHashV>, j: int, first: bool)
    requires
        0 <= j < rs.len(),
        first == (j == 0),
    ensures
        json_records_rest(rs.skip(j), first) == (if first {
            Seq::<char>::empty()
        } else {
            seq![',']
        }) + json_record(rs[j]) + json_records_rest(rs.skip(j + 1), false),
{
    assert(rs.skip(j).len() == rs.len() - j);
    assert(rs.skip(j)[0] == rs[j]);
    assert(rs.skip(j).drop_first() =~= rs.skip(j + 1));
}

/// Appends the whole persisted request text.
#[verifier::rlimit(90)]
pub fn enc_request(info: &Info, records: &Vec<ObjectHash>) -> (r: Vec<char>)
    ensures
        r@ == json_request(info@, views_of(records@)),
{
    let mut out: Vec<char> = Vec::new();
    out.push('{');
    out.push('"');
    out.push('i');
    out.push('n');
    out.push('f');
    out.push('o');
    out.push('"');
    out.push(':');
    enc_info(&mut out, info);
    out.push(',');
    out.push('"');
    out.push('r');
    out.push('e');
    out.push('c');
    out.push('o');
    out.push('r');
    out.push('d');
    out.push('s');
    out.push('"');
    out.push(':');
    out.push('[');
    let ghost osv = views_of(records@);
    let ghost mid = out@;
    proof {
        assert(osv.skip(0) =~= osv);
    }
    let mut j: usize = 0;
    while j < records.len()
        invariant
            0 <= j <= records@.len(),
            osv == views_of(records@),
            osv.len() == records@.len(),
            out@ + json_records_rest(osv.skip(j as int), j == 0) == mid + json_records_rest(
                osv,
                true,
            ),
        decreases records@.len() - j,
    {
        let ghost pre = out@;
        if j > 0 {
            out.push(',');
        }
        enc_record(&mut out, &records[j]);
        proof {
            lemma_records_rest_split(osv, j as int, j == 0);
            assert(osv[j as int] == records@[j as int]@);
            assert(out@ =~= pre + (if j == 0 {
                Seq::<char>::empty()
            } else {
                seq![',']
            }) + json_record(osv[j as int]));
            assert(out@ + json_records_rest(osv.skip(j as int + 1), false) =~= pre
                + json_records_rest(osv.skip(j as int), j == 0));
        }
        j += 1;
    }
    proof {
        assert(osv.skip(osv.len() as int) =~= Seq::<ObjectHashV>::empty());
        assert(json_records_rest(osv.skip(osv.len() as int), records@.len() == 0)
            =~= Seq::<char>::empty());
    }
    out.push(']');
    out.push('}');
    proof {
        assert(out@ =~= json_request(info@, views_of(records@)));
    }
    out
}

} // verus!

verus! {

// ---------------------------------------------------------------------------
// Parser: the spec functions consume from the front of the text; the
// executable parser returns exactly what they say.
// ---------------------------------------------------------------------------

/// The value of a hex digit, or 16 for any other character.
pub open spec fn hexval(c: char) -> int {
    if c == '0' {
        0
    } else if c == '1' {
        1
    } else if c == '2' {
        2
    } else if c == '3' {
        3
    } else if c == '4' {
        4
    } else if c == '5' {
        5
    } else if c == '6' {
        6
    } else if c == '7' {
        7
    } else if c == '8' {
        8
    } else if c == '9' {
        9
    } else if c == 'a' {
        10
    } else if c == 'b' {
        11
    } else if c == 'c' {
        12
    } else if c == 'd' {
        13
    } else if c == 'e' {
        14
    } else if c == 'f' {
        15
    } else {
        16
    }
}

/// Consumes a literal prefix.
pub open spec fn p_lit(s: Seq<char>, l: Seq<char>) -> Option<Seq<char>> {
    if l.len() <= s.len() && s.take(l.len() as int) == l {
        Some(s.skip(l.len() as int))
    } else {
        None
    }
}

/// The character a two-letter escape stands for.
pub open spec fn unesc_letter(c: char) -> char {
    if c == 'n' {
        '\n'
    } else if c == 't' {
        '\t'
    } else if c == 'r' {
        '\r'
    } else if c == 'b' {
        '\u{8}'
    } else if c == 'f' {
        '\u{c}'
    } else {
        '/'
    }
}

/// Whether `c` is one of the short escape letters.
pub open spec fn is_esc_letter(c: char) -> bool {
    c == 'n' || c == 't' || c == 'r' || c == 'b' || c == 'f' || c == '/'
}

/// Consumes the body of a quoted string after the opening quote, up to and
/// including the closing quote, undoing the escapes the encoder makes. The
/// conventional short escapes (`\n`, `\t`, `\r`, `\b`, `\f`, `\/`), which
/// other JSON writers emit, are accepted as well.
pub open spec fn p_string_body(s: Seq<char>) -> Option<(Seq<char>, Seq<char>)>
    decreases s.len(),
{
    if s.len() == 0 {
        None
    } else if s[0] == '"' {
        Some((Seq::empty(), s.drop_first()))
    } else if s[0] == '\\' {
        if s.len() < 2 {
            None
        } else if s[1] == '"' || s[1] == '\\' {
            match p_string_body(s.skip(2)) {
                Some(p) => Some((seq![s[1]] + p.0, p.1)),
                None => None,
            }
        } else if is_esc_letter(s[1]) {
            match p_string_body(s.skip(2)) {
                Some(p) => Some((seq![unesc_letter(s[1])] + p.0, p.1)),
                None => None,
            }
        } else if s[1] == 'u' {
            if s.len() < 6 {
                None
            } else if s[2] == '0' && s[3] == '0' && hexval(s[4]) < 16 && hexval(s[5]) < 16 && hexval(
                s[4],
            ) * 16 + hexval(s[5]) < 32 {
                match p_string_body(s.skip(6)) {
                    Some(p) => Some(
                        (seq![((hexval(s[4]) * 16 + hexval(s[5])) as u32) as char] + p.0, p.1),
                    ),
                    None => None,
                }
            } else {
                None
            }
        } else {
            None
        }
    } else if (s[0] as u32) < 32 {
        None
    } else {
        match p_string_body(s.drop_first()) {
            Some(p) => Some((seq![s[0]] + p.0, p.1)),
            None => None,
        }
    }
}

/// Consumes a whole quoted string.
pub open spec fn p_qstring(s: Seq<char>) -> Option<(Seq<char>, Seq<char>)> {
    if s.len() >= 1 && s[0] == '"' {
        p_string_body(s.drop_first())
    } else {
        None
    }
}

pub open spec fn lit_null() -> Seq<char> {
    seq!['n', 'u', 'l', 'l']
}

pub open spec fn lit_id_open() -> Seq<char> {
    seq!['{', '"', 'i', 'd', '"', ':']
}

pub open spec fn lit_host() -> Seq<char> {
    seq![',', '"', 'h', 'o', 's', 't', '"', ':']
}

pub open spec fn lit_timestamp() -> Seq<char> {
    seq![',', '"', 't', 'i', 'm', 'e', 's', 't', 'a', 'm', 'p', '"', ':']
}

pub open spec fn lit_close() -> Seq<char> {
    seq!['}']
}

pub open spec fn lit_name_open() -> Seq<char> {
    seq!['{', '"', 'n', 'a', 'm', 'e', '"', ':']
}

pub open spec fn lit_hash() -> Seq<char> {
    seq![',', '"', 'h', 'a', 's', 'h', '"', ':']
}

pub open spec fn lit_info_open() -> Seq<char> {
    seq!['{', '"', 'i', 'n', 'f', 'o', '"', ':']
}

pub open spec fn lit_records() -> Seq<char> {
    seq![',', '"', 'r', 'e', 'c', 'o', 'r', 'd', 's', '"', ':', '[']
}

/// Consumes `null` or a quoted string.
pub open spec fn p_opt(s: Seq<char>) -> Option<(Option<Seq<char>>, Seq<char>)> {
    if s.len() >= 1 && s[0] == 'n' {
        match p_lit(s, lit_null()) {
            Some(r) => Some((None, r)),
            None => None,
        }
    } else {
        match p_qstring(s) {
            Some(p) => Some((Some(p.0), p.1)),
            None => None,
        }
    }
}

/// Consumes the info object.
pub open spec fn p_info(s: Seq<char>) -> Option<(InfoV, Seq<char>)> {
    match p_lit(s, lit_id_open()) {
        Some(s1) => match p_qstring(s1) {
            Some(q) => match p_lit(q.1, lit_host()) {
                Some(s3) => match p_opt(s3) {
                    Some(h) => match p_lit(h.1, lit_timestamp()) {
                        Some(s5) => match p_opt(s5) {
                            Some(t) => match p_lit(t.1, lit_close()) {
                                Some(s7) => Some(
                                    (InfoV { id: q.0, host: h.0, timestamp: t.0 }, s7),
                                ),
                                None => None,
                            },
                            None => None,
                        },
                        None => None,
                    },
                    None => None,
                },
                None => None,
            },
            None => None,
        },
        None => None,
    }
}

/// Consumes one record object.
pub open spec fn p_record(s: Seq<char>) -> Option<(ObjectHashV, Seq<char>)> {
    match p_lit(s, lit_name_open()) {
        Some(s1) => match p_qstring(s1) {
            Some(n) => match p_lit(n.1, lit_hash()) {
                Some(s3) => match p_qstring(s3) {
                    Some(h) => match p_lit(h.1, lit_close()) {
                        Some(s5) => Some((ObjectHashV { name: n.0, hash: h.0 }, s5)),
                        None => None,
                    },
                    None => None,
                },
                None => None,
            },
            None => None,
        },
        None => None,
    }
}

/// Consumes the rest of the record list after the first element.
pub open spec fn p_records_tail(s: Seq<char>, acc: Seq<ObjectHashV>) -> Option<
    (Seq<ObjectHashV>, Seq<char>),
>
    decreases s.len(),
{
    if s.len() == 0 {
        None
    } else if s[0] == ']' {
        Some((acc, s.drop_first()))
    } else if s[0] == ',' {
        match p_record(s.drop_first()) {
            Some(p) => if p.1.len() < s.len() {
                p_records_tail(p.1, acc.push(p.0))
            } else {
                None
            },
            None => None,
        }
    } else {
        None
    }
}

/// Consumes the record list after the opening bracket, up to and including
/// the closing bracket.
pub open spec fn p_records(s: Seq<char>) -> Option<(Seq<ObjectHashV>, Seq<char>)> {
    if s.len() >= 1 && s[0] == ']' {
        Some((Seq::empty(), s.drop_first()))
    } else {
        match p_record(s) {
            Some(p) => if p.1.len() < s.len() {
                p_records_tail(p.1, seq![p.0])
            } else {
                None
            },
            None => None,
        }
    }
}

/// Consumes a whole persisted request; the text must end with it.
pub open spec fn p_request(s: Seq<char>) -> Option<(InfoV, Seq<ObjectHashV>)> {
    match p_lit(s, lit_info_open()) {
        Some(s1) => match p_info(s1) {
            Some(i) => match p_lit(i.1, lit_records()) {
                Some(s3) => match p_records(s3) {
                    Some(r) => if r.1 == lit_close() {
                        Some((i.0, r.0))
                    } else {
                        None
                    },
                    None => None,
                },
                None => None,
            },
            None => None,
        },
        None => None,
    }
}

} // verus!

verus! {

/// Prepends `pre` to the value of a successful string parse.
pub open spec fn opt_prepend(pre: Seq<char>, o: Option<(Seq<char>, Seq<char>)>) -> Option<
    (Seq<char>, Seq<char>),
> {
    match o {
        Some(p) => Some((pre + p.0, p.1)),
        None => None,
    }
}

/// The value of a hex digit, or 16.
fn hexval_char(c: char) -> (n: u32)
    ensures
        n == hexval(c),
{
    if c == '0' {
        0
    } else if c == '1' {
        1
    } else if c == '2' {
        2
    } else if c == '3' {
        3
    } else if c == '4' {
        4
    } else if c == '5' {
        5
    } else if c == '6' {
        6
    } else if c == '7' {
        7
    } else if c == '8' {
        8
    } else if c == '9' {
        9
    } else if c == 'a' {
        10
    } else if c == 'b' {
        11
    } else if c == 'c' {
        12
    } else if c == 'd' {
        13
    } else if c == 'e' {
        14
    } else if c == 'f' {
        15
    } else {
        16
    }
}

/// The character a two-letter escape stands for.
fn unesc_letter_char(c: char) -> (r: char)
    ensures
        r == unesc_letter(c),
{
    if c == 'n' {
        '\n'
    } else if c == 't' {
        '\t'
    } else if c == 'r' {
        '\r'
    } else if c == 'b' {
        '\u{8}'
    } else if c == 'f' {
        '\u{c}'
    } else {
        '/'
    }
}

/// Consumes the literal `l` at position `i`.
fn eat(cs: &Vec<char>, i: usize, l: &[char]) -> (r: Option<usize>)
    requires
        i <= cs@.len(),
    ensures
        match r {
            Some(j) => i <= j <= cs@.len() && p_lit(cs@.skip(i as int), l@) == Some(
                cs@.skip(j as int),
            ),
            None => p_lit(cs@.skip(i as int), l@) is None,
        },
{
    let n: usize = cs.len();
    if n - i < l.len() {
        return None;
    }
    let mut k: usize = 0;
    while k < l.len()
        invariant
            0 <= k <= l@.len(),
            n == cs@.len(),
            i + l@.len() <= n,
            forall|m: int| 0 <= m < k ==> cs@[i + m] == l@[m],
        decreases l@.len() - k,
    {
        if cs[i + k] != l[k] {
            proof {
                assert(cs@.skip(i as int).take(l@.len() as int)[k as int] != l@[k as int]);
            }
            return None;
        }
        k += 1;
    }
    proof {
        assert(cs@.skip(i as int).take(l@.len() as int) =~= l@);
        assert(cs@.skip(i as int).skip(l@.len() as int) =~= cs@.skip(i as int + l@.len() as int));
    }
    Some(i + l.len())
}

/// Consumes a string body after the opening quote, undoing escapes.
fn p_string_exec(cs: &Vec<char>, i: usize) -> (r: Option<(Vec<char>, usize)>)
    requires
        i <= cs@.len(),
    ensures
        match r {
            Some(p) => i <= p.1 <= cs@.len() && p_string_body(cs@.skip(i as int)) == Some(
                (p.0@, cs@.skip(p.1 as int)),
            ),
            None => p_string_body(cs@.skip(i as int)) is None,
        },
{
    let mut out: Vec<char> = Vec::new();
    let mut j: usize = i;
    proof {
        assert(out@ + Seq::<char>::empty() =~= Seq::<char>::empty());
    }
    while j < cs.len()
        invariant
            i <= j <= cs@.len(),
            opt_prepend(out@, p_string_body(cs@.skip(j as int))) == p_string_body(
                cs@.skip(i as int),
            ),
        decreases cs@.len() - j,
    {
        let ghost pre = out@;
        let ghost sj = cs@.skip(j as int);
        proof {
            assert(sj[0] == cs@[j as int]);
            assert(sj.len() == cs@.len() - j);
        }
        let c = cs[j];
        if c == '"' {
            proof {
                assert(sj.drop_first() =~= cs@.skip(j as int + 1));
                assert(p_string_body(sj) == Some((Seq::<char>::empty(), cs@.skip(j as int + 1))));
                assert(pre + Seq::<char>::empty() =~= pre);
            }
            return Some((out, j + 1));
        } else if c == '\\' {
            if j + 1 >= cs.len() {
                proof {
                    assert(sj.len() < 2);
                }
                return None;
            }
            let c2 = cs[j + 1];
            proof {
                assert(sj[1] == cs@[j as int + 1]);
            }
            if c2 == '"' || c2 == '\\' {
                out.push(c2);
                proof {
                    assert(sj.skip(2) =~= cs@.skip(j as int + 2));
                    match p_string_body(cs@.skip(j as int + 2)) {
                        Some(p) => {
                            assert(p_string_body(sj) == Some((seq![c2] + p.0, p.1)));
                            assert(pre + (seq![c2] + p.0) =~= out@ + p.0);
                        },
                        None => {
                            assert(p_string_body(sj) is None);
                        },
                    }
                }
                j += 2;
            } else if c2 == 'n' || c2 == 't' || c2 == 'r' || c2 == 'b' || c2 == 'f' || c2 == '/' {
                let decoded = unesc_letter_char(c2);
                out.push(decoded);
                proof {
                    assert(is_esc_letter(sj[1]));
                    assert(decoded == unesc_letter(sj[1]));
                    assert(sj.skip(2) =~= cs@.skip(j as int + 2));
                    match p_string_body(cs@.skip(j as int + 2)) {
                        Some(p) => {
                            assert(p_string_body(sj) == Some((seq![decoded] + p.0, p.1)));
                            assert(pre + (seq![decoded] + p.0) =~= out@ + p.0);
                        },
                        None => {
                            assert(p_string_body(sj) is None);
                        },
                    }
                }
                j += 2;
            } else if c2 == 'u' {
                if cs.len() - j < 6 {
                    proof {
                        assert(sj.len() < 6);
                    }
                    return None;
                }
                proof {
                    assert(sj[2] == cs@[j as int + 2]);
                    assert(sj[3] == cs@[j as int + 3]);
                    assert(sj[4] == cs@[j as int + 4]);
                    assert(sj[5] == cs@[j as int + 5]);
                }
                let c3 = cs[j + 2];
                let c4 = cs[j + 3];
                let h1 = hexval_char(cs[j + 4]);
                let h2 = hexval_char(cs[j + 5]);
                if c3 == '0' && c4 == '0' && h1 < 16 && h2 < 16 && h1 * 16 + h2 < 32 {
                    let code: u32 = h1 * 16 + h2;
                    let decoded: char = (code as u8) as char;
                    out.push(decoded);
                    proof {
                        assert(decoded == ((hexval(sj[4]) * 16 + hexval(sj[5])) as u32) as char);
                        assert(sj.skip(6) =~= cs@.skip(j as int + 6));
                        match p_string_body(cs@.skip(j as int + 6)) {
                            Some(p) => {
                                assert(p_string_body(sj) == Some((seq![decoded] + p.0, p.1)));
                                assert(pre + (seq![decoded] + p.0) =~= out@ + p.0);
                            },
                            None => {
                                assert(p_string_body(sj) is None);
                            },
                        }
                    }
                    j += 6;
                } else {
                    return None;
                }
            } else {
                return None;
            }
        } else if (c as u32) < 32 {
            return None;
        } else {
            out.push(c);
            proof {
                assert(sj.drop_first() =~= cs@.skip(j as int + 1));
                match p_string_body(cs@.skip(j as int + 1)) {
                    Some(p) => {
                        assert(p_string_body(sj) == Some((seq![c] + p.0, p.1)));
                        assert(pre + (seq![c] + p.0) =~= out@ + p.0);
                    },
                    None => {
                        assert(p_string_body(sj) is None);
                    },
                }
            }
            j += 1;
        }
    }
    proof {
        assert(cs@.skip(j as int).len() == 0);
    }
    None
}

/// Consumes a whole quoted string.
fn p_qstring_exec(cs: &Vec<char>, i: usize) -> (r: Option<(Vec<char>, usize)>)
    requires
        i <= cs@.len(),
    ensures
        match r {
            Some(p) => i <= p.1 <= cs@.len() && p_qstring(cs@.skip(i as int)) == Some(
                (p.0@, cs@.skip(p.1 as int)),
            ),
            None => p_qstring(cs@.skip(i as int)) is None,
        },
{
    if i < cs.len() && cs[i] == '"' {
        proof {
            assert(cs@.skip(i as int)[0] == cs@[i as int]);
            assert(cs@.skip(i as int).drop_first() =~= cs@.skip(i as int + 1));
        }
        p_string_exec(cs, i + 1)
    } else {
        proof {
            if i < cs@.len() {
                assert(cs@.skip(i as int)[0] == cs@[i as int]);
            } else {
                assert(cs@.skip(i as int).len() == 0);
            }
        }
        None
    }
}

/// Consumes `null` or a quoted string.
fn p_opt_exec(cs: &Vec<char>, i: usize) -> (r: Option<(Option<String>, usize)>)
    requires
        i <= cs@.len(),
    ensures
        match r {
            Some(p) => i <= p.1 <= cs@.len() && p_opt(cs@.skip(i as int)) == Some(
                (
                    match p.0 {
                        Some(s) => Some(s@),
                        None => None,
                    },
                    cs@.skip(p.1 as int),
                ),
            ),
            None => p_opt(cs@.skip(i as int)) is None,
        },
{
    proof {
        if i < cs@.len() {
            assert(cs@.skip(i as int)[0] == cs@[i as int]);
        } else {
            assert(cs@.skip(i as int).len() == 0);
        }
    }
    if i < cs.len() && cs[i] == 'n' {
        match eat(cs, i, &['n', 'u', 'l', 'l']) {
            Some(j) => {
                proof {
                    assert((&['n', 'u', 'l', 'l'])@ =~= lit_null());
                }
                Some((None, j))
            },
            None => {
                proof {
                    assert((&['n', 'u', 'l', 'l'])@ =~= lit_null());
                }
                None
            },
        }
    } else {
        match p_qstring_exec(cs, i) {
            Some(p) => {
                let s = chars_string(&p.0);
                Some((Some(s), p.1))
            },
            None => None,
        }
    }
}

} // verus!

verus! {

/// Consumes the info object.
fn p_info_exec(cs: &Vec<char>, i: usize) -> (r: Option<(Info, usize)>)
    requires
        i <= cs@.len(),
    ensures
        match r {
            Some(p) => i <= p.1 <= cs@.len() && p_info(cs@.skip(i as int)) == Some(
                (p.0@, cs@.skip(p.1 as int)),
            ),
            None => p_info(cs@.skip(i as int)) is None,
        },
{
    proof {
        assert((&['{', '"', 'i', 'd', '"', ':'])@ =~= lit_id_open());
        assert((&[',', '"', 'h', 'o', 's', 't', '"', ':'])@ =~= lit_host());
        assert((&[',', '"', 't', 'i', 'm', 'e', 's', 't', 'a', 'm', 'p', '"', ':'])@ =~= lit_timestamp());
        assert((&['}'])@ =~= lit_close());
    }
    let s1 = match eat(cs, i, &['{', '"', 'i', 'd', '"', ':']) {
        Some(j) => j,
        None => {
            return None;
        },
    };
    let (idv, s2) = match p_qstring_exec(cs, s1) {
        Some(p) => p,
        None => {
            return None;
        },
    };
    let s3 = match eat(cs, s2, &[',', '"', 'h', 'o', 's', 't', '"', ':']) {
        Some(j) => j,
        None => {
            return None;
        },
    };
    let (host, s4) = match p_opt_exec(cs, s3) {
        Some(p) => p,
        None => {
            return None;
        },
    };
    let s5 = match eat(cs, s4, &[',', '"', 't', 'i', 'm', 'e', 's', 't', 'a', 'm', 'p', '"', ':']) {
        Some(j) => j,
        None => {
            return None;
        },
    };
    let (timestamp, s6) = match p_opt_exec(cs, s5) {
        Some(p) => p,
        None => {
            return None;
        },
    };
    let s7 = match eat(cs, s6, &['}']) {
        Some(j) => j,
        None => {
            return None;
        },
    };
    let id = chars_string(&idv);
    Some((Info { id, host, timestamp }, s7))
}

/// Consumes one record object.
fn p_record_exec(cs: &Vec<char>, i: usize) -> (r: Option<(ObjectHash, usize)>)
    requires
        i <= cs@.len(),
    ensures
        match r {
            Some(p) => i <= p.1 <= cs@.len() && p_record(cs@.skip(i as int)) == Some(
                (p.0@, cs@.skip(p.1 as int)),
            ),
            None => p_record(cs@.skip(i as int)) is None,
        },
{
    proof {
        assert((&['{', '"', 'n', 'a', 'm', 'e', '"', ':'])@ =~= lit_name_open());
        assert((&[',', '"', 'h', 'a', 's', 'h', '"', ':'])@ =~= lit_hash());
        assert((&['}'])@ =~= lit_close());
    }
    let s1 = match eat(cs, i, &['{', '"', 'n', 'a', 'm', 'e', '"', ':']) {
        Some(j) => j,
        None => {
            return None;
        },
    };
    let (namev, s2) = match p_qstring_exec(cs, s1) {
        Some(p) => p,
        None => {
            return None;
        },
    };
    let s3 = match eat(cs, s2, &[',', '"', 'h', 'a', 's', 'h', '"', ':']) {
        Some(j) => j,
        None => {
            return None;
        },
    };
    let (hashv, s4) = match p_qstring_exec(cs, s3) {
        Some(p) => p,
        None => {
            return None;
        },
    };
    let s5 = match eat(cs, s4, &['}']) {
        Some(j) => j,
        None => {
            return None;
        },
    };
    let name = chars_string(&namev);
    let hash = chars_string(&hashv);
    Some((ObjectHash { name, hash }, s5))
}

/// Consumes the record list after the opening bracket.
fn p_records_exec(cs: &Vec<char>, i: usize) -> (r: Option<(Vec<ObjectHash>, usize)>)
    requires
        i <= cs@.len(),
    ensures
        match r {
            Some(p) => i <= p.1 <= cs@.len() && p_records(cs@.skip(i as int)) == Some(
                (views_of(p.0@), cs@.skip(p.1 as int)),
            ),
            None => p_records(cs@.skip(i as int)) is None,
        },
{
    proof {
        if i < cs@.len() {
            assert(cs@.skip(i as int)[0] == cs@[i as int]);
        } else {
            assert(cs@.skip(i as int).len() == 0);
        }
    }
    let mut out: Vec<ObjectHash> = Vec::new();
    if i < cs.len() && cs[i] == ']' {
        proof {
            assert(cs@.skip(i as int).drop_first() =~= cs@.skip(i as int + 1));
            assert(views_of(out@) =~= Seq::<ObjectHashV>::empty());
        }
        return Some((out, i + 1));
    }
    let (first, mut j) = match p_record_exec(cs, i) {
        Some(p) => p,
        None => {
            return None;
        },
    };
    out.push(first);
    if j <= i {
        // a record consumes text, so this cannot happen; the spec guard
        // mirrors the check
        proof {
            assert(cs@.skip(j as int).len() >= cs@.skip(i as int).len());
        }
        return None;
    }
    proof {
        assert(views_of(out@) =~= seq![first@]);
        assert(p_records(cs@.skip(i as int)) == p_records_tail(cs@.skip(j as int), seq![first@]));
    }
    let ghost start = cs@.skip(i as int);
    while j < cs.len()
        invariant
            i < j <= cs@.len(),
            start == cs@.skip(i as int),
            p_records(start) == p_records_tail(cs@.skip(j as int), views_of(out@)),
        decreases cs@.len() - j,
    {
        let ghost sj = cs@.skip(j as int);
        proof {
            assert(sj.len() == cs@.len() - j);
            assert(sj[0] == cs@[j as int]);
        }
        let c = cs[j];
        if c == ']' {
            proof {
                assert(sj.drop_first() =~= cs@.skip(j as int + 1));
                assert(p_records_tail(sj, views_of(out@)) == Some(
                    (views_of(out@), cs@.skip(j as int + 1)),
                ));
                assert(p_records(start) == Some((views_of(out@), cs@.skip(j as int + 1))));
            }
            return Some((out, j + 1));
        } else if c == ',' {
            proof {
                assert(sj.drop_first() =~= cs@.skip(j as int + 1));
            }
            let (one, j2) = match p_record_exec(cs, j + 1) {
                Some(p) => p,
                None => {
                    proof {
                        assert(p_record(cs@.skip(j as int + 1)) is None);
                        assert(p_records_tail(sj, views_of(out@)) is None);
                        assert(p_records(start) is None);
                    }
                    return None;
                },
            };
            let ghost prev = out@;
            out.push(one);
            if j2 <= j {
                proof {
                    assert(cs@.skip(j2 as int).len() >= sj.len() - 1);
                }
                return None;
            }
            proof {
                assert(cs@.skip(j2 as int).len() < sj.len());
                assert(views_of(out@) =~= views_of(prev).push(one@));
                assert(p_records_tail(sj, views_of(prev)) == p_records_tail(
                    cs@.skip(j2 as int),
                    views_of(out@),
                ));
            }
            j = j2;
        } else {
            return None;
        }
    }
    proof {
        assert(cs@.skip(j as int).len() == 0);
    }
    None
}

/// Parses the text of a persisted request. Returns the report metadata and
/// records exactly when the text is a persisted request, as `p_request`
/// defines it.
#[verifier::rlimit(60)]
pub fn parse_request(s: &str) -> (r: Option<(Info, Vec<ObjectHash>)>)
    ensures
        match r {
            Some(p) => p_request(s@) == Some((p.0@, views_of(p.1@))),
            None => p_request(s@) is None,
        },
{
    let cs = str_chars(s);
    proof {
        assert(cs@.skip(0) =~= cs@);
        assert((&['{', '"', 'i', 'n', 'f', 'o', '"', ':'])@ =~= lit_info_open());
        assert((&[',', '"', 'r', 'e', 'c', 'o', 'r', 'd', 's', '"', ':', '['])@ =~= lit_records());
    }
    let s1 = match eat(&cs, 0, &['{', '"', 'i', 'n', 'f', 'o', '"', ':']) {
        Some(j) => j,
        None => {
            return None;
        },
    };
    let (info, s2) = match p_info_exec(&cs, s1) {
        Some(p) => p,
        None => {
            return None;
        },
    };
    let s3 = match eat(&cs, s2, &[',', '"', 'r', 'e', 'c', 'o', 'r', 'd', 's', '"', ':', '[']) {
        Some(j) => j,
        None => {
            return None;
        },
    };
    let (records, s4) = match p_records_exec(&cs, s3) {
        Some(p) => p,
        None => {
            return None;
        },
    };
    if s4 < cs.len() && cs.len() - s4 == 1 && cs[s4] == '}' {
        proof {
            assert(cs@.skip(s4 as int) =~= lit_close());
        }
        Some((info, records))
    } else {
        proof {
            if cs@.skip(s4 as int) == lit_close() {
                assert(cs@.skip(s4 as int).len() == 1);
                assert(cs@.skip(s4 as int)[0] == cs@[s4 as int]);
            }
        }
        None
    }
}

} // verus!

verus! {

proof fn lemma_p_lit(l: Seq<char>, rest: Seq<char>)
    ensures
        p_lit(l + rest, l) == Some(rest),
{
    assert((l + rest).take(l.len() as int) =~= l);
    assert((l + rest).skip(l.len() as int) =~= rest);
}

proof fn lemma_hexval_digit(n: int)
    requires
        0 <= n < 16,
    ensures
        hexval(hex_digit(n)) == n,
{
}

/// Parsing a string body undoes the encoder's escaping exactly.
proof fn lemma_p_string_roundtrip(x: Seq<char>, rest: Seq<char>)
    ensures
        p_string_body(esc_seq(x) + seq!['"'] + rest) == Some((x, rest)),
    decreases x.len(),
{
    let s = esc_seq(x) + seq!['"'] + rest;
    if x.len() == 0 {
        assert(esc_seq(x) == Seq::<char>::empty());
        assert(s =~= seq!['"'] + rest);
        assert(s[0] == '"');
        assert(s.drop_first() =~= rest);
    } else {
        let c = x[0];
        let x1 = x.drop_first();
        assert(esc_seq(x) == esc_char(c) + esc_seq(x1));
        let tail = esc_seq(x1) + seq!['"'] + rest;
        assert(s =~= esc_char(c) + tail);
        lemma_p_string_roundtrip(x1, rest);
        assert(seq![c] + x1 =~= x);
        if c == '"' {
            assert(esc_char(c) =~= seq!['\\', '"']);
            assert(s[0] == '\\' && s[1] == '"');
            assert(s.len() >= 2);
            assert(s.skip(2) =~= tail);
            assert(p_string_body(s) == Some((seq![s[1]] + x1, rest)));
            assert(seq![s[1]] + x1 =~= x);
        } else if c == '\\' {
            assert(esc_char(c) =~= seq!['\\', '\\']);
            assert(s[0] == '\\' && s[1] == '\\');
            assert(s.skip(2) =~= tail);
            assert(p_string_body(s) == Some((seq![s[1]] + x1, rest)));
            assert(seq![s[1]] + x1 =~= x);
        } else if (c as u32) < 32 {
            let code = (c as u32) as int;
            assert(esc_char(c) =~= seq![
                '\\',
                'u',
                '0',
                '0',
                hex_digit(code / 16),
                hex_digit(code % 16),
            ]);
            assert(s[0] == '\\' && s[1] == 'u' && s[2] == '0' && s[3] == '0');
            assert(s[4] == hex_digit(code / 16) && s[5] == hex_digit(code % 16));
            assert(s.len() >= 6);
            assert(0 <= code < 32);
            assert(0 <= code / 16 < 16 && 0 <= code % 16 < 16);
            lemma_hexval_digit(code / 16);
            lemma_hexval_digit(code % 16);
            assert(hexval(s[4]) == code / 16 && hexval(s[5]) == code % 16);
            assert(hexval(s[4]) * 16 + hexval(s[5]) == code);
            assert(s.skip(6) =~= tail);
            vstd::utf8::char_u32_cast(c, c as u32);
            assert(((code as u32) as char) == c);
            assert(p_string_body(s) == Some((seq![c] + x1, rest)));
        } else {
            assert(esc_char(c) =~= seq![c]);
            assert(s[0] == c);
            assert(s.drop_first() =~= tail);
            assert(p_string_body(s) == Some((seq![c] + x1, rest)));
        }
    }
}

/// Parsing a quoted string undoes `json_str` exactly.
proof fn lemma_p_qstring_roundtrip(x: Seq<char>, rest: Seq<char>)
    ensures
        p_qstring(json_str(x) + rest) == Some((x, rest)),
{
    let s = json_str(x) + rest;
    assert(s[0] == '"');
    assert(s.drop_first() =~= esc_seq(x) + seq!['"'] + rest);
    lemma_p_string_roundtrip(x, rest);
}

/// Parsing an optional string undoes `json_opt` exactly.
proof fn lemma_p_opt_roundtrip(o: Option<Seq<char>>, rest: Seq<char>)
    ensures
        p_opt(json_opt(o) + rest) == Some((o, rest)),
{
    let s = json_opt(o) + rest;
    match o {
        None => {
            assert(s[0] == 'n');
            assert(s =~= lit_null() + rest);
            lemma_p_lit(lit_null(), rest);
        },
        Some(x) => {
            assert(s[0] == '"');
            assert(s.len() >= 1);
            lemma_p_qstring_roundtrip(x, rest);
        },
    }
}

/// Parsing the info object undoes `json_info` exactly.
proof fn lemma_p_info_roundtrip(iv: InfoV, rest: Seq<char>)
    ensures
        p_info(json_info(iv) + rest) == Some((iv, rest)),
{
    let s = json_info(iv) + rest;
    let a1 = json_str(iv.id) + (lit_host() + (json_opt(iv.host) + (lit_timestamp() + (json_opt(
        iv.timestamp,
    ) + (lit_close() + rest)))));
    assert(s =~= lit_id_open() + a1);
    lemma_p_lit(lit_id_open(), a1);
    let a2 = lit_host() + (json_opt(iv.host) + (lit_timestamp() + (json_opt(iv.timestamp) + (
    lit_close() + rest))));
    lemma_p_qstring_roundtrip(iv.id, a2);
    let a3 = json_opt(iv.host) + (lit_timestamp() + (json_opt(iv.timestamp) + (lit_close()
        + rest)));
    lemma_p_lit(lit_host(), a3);
    let a4 = lit_timestamp() + (json_opt(iv.timestamp) + (lit_close() + rest));
    lemma_p_opt_roundtrip(iv.host, a4);
    let a5 = json_opt(iv.timestamp) + (lit_close() + rest);
    lemma_p_lit(lit_timestamp(), a5);
    let a6 = lit_close() + rest;
    lemma_p_opt_roundtrip(iv.timestamp, a6);
    lemma_p_lit(lit_close(), rest);
    assert(InfoV { id: iv.id, host: iv.host, timestamp: iv.timestamp } == iv);
}

/// Parsing one record undoes `json_record` exactly.
proof fn lemma_p_record_roundtrip(o: ObjectHashV, rest: Seq<char>)
    ensures
        p_record(json_record(o) + rest) == Some((o, rest)),
{
    let s = json_record(o) + rest;
    let a1 = json_str(o.name) + (lit_hash() + (json_str(o.hash) + (lit_close() + rest)));
    assert(s =~= lit_name_open() + a1);
    lemma_p_lit(lit_name_open(), a1);
    let a2 = lit_hash() + (json_str(o.hash) + (lit_close() + rest));
    lemma_p_qstring_roundtrip(o.name, a2);
    let a3 = json_str(o.hash) + (lit_close() + rest);
    lemma_p_lit(lit_hash(), a3);
    let a4 = lit_close() + rest;
    lemma_p_qstring_roundtrip(o.hash, a4);
    lemma_p_lit(lit_close(), rest);
    assert(ObjectHashV { name: o.name, hash: o.hash } == o);
}

proof fn lemma_p_records_tail_roundtrip(rs: Seq<ObjectHashV>, acc: Seq<ObjectHashV>, rest: Seq<char>)
    ensures
        p_records_tail(json_records_rest(rs, false) + seq![']'] + rest, acc) == Some(
            (acc + rs, rest),
        ),
    decreases rs.len(),
{
    let s = json_records_rest(rs, false) + seq![']'] + rest;
    if rs.len() == 0 {
        assert(json_records_rest(rs, false) == Seq::<char>::empty());
        assert(s =~= seq![']'] + rest);
        assert(s[0] == ']');
        assert(s.drop_first() =~= rest);
        assert(acc + rs =~= acc);
    } else {
        let o = rs[0];
        let rs1 = rs.drop_first();
        assert(json_records_rest(rs, false) == seq![','] + json_record(o) + json_records_rest(
            rs1,
            false,
        ));
        let after = json_records_rest(rs1, false) + seq![']'] + rest;
        assert(s =~= seq![','] + (json_record(o) + after));
        assert(s[0] == ',');
        assert(s.drop_first() =~= json_record(o) + after);
        lemma_p_record_roundtrip(o, after);
        assert(json_record(o).len() > 0);
        assert(after.len() < s.len());
        lemma_p_records_tail_roundtrip(rs1, acc.push(o), rest);
        assert(acc.push(o) + rs1 =~= acc + rs);
    }
}

/// Parsing the record list undoes the encoder's list text exactly.
proof fn lemma_p_records_roundtrip(rs: Seq<ObjectHashV>, rest: Seq<char>)
    ensures
        p_records(json_records_rest(rs, true) + seq![']'] + rest) == Some((rs, rest)),
{
    let s = json_records_rest(rs, true) + seq![']'] + rest;
    if rs.len() == 0 {
        assert(json_records_rest(rs, true) == Seq::<char>::empty());
        assert(s =~= seq![']'] + rest);
        assert(s[0] == ']');
        assert(s.drop_first() =~= rest);
    } else {
        let o = rs[0];
        let rs1 = rs.drop_first();
        assert(json_records_rest(rs, true) == json_record(o) + json_records_rest(rs1, false));
        let after = json_records_rest(rs1, false) + seq![']'] + rest;
        assert(s =~= json_record(o) + after);
        assert(json_record(o)[0] == '{');
        assert(s[0] == '{');
        lemma_p_record_roundtrip(o, after);
        assert(json_record(o).len() > 0);
        assert(after.len() < s.len());
        lemma_p_records_tail_roundtrip(rs1, seq![o], rest);
        assert(seq![o] + rs1 =~= rs);
    }
}

/// Round trip: the text the encoder writes for a report parses back to
/// exactly that report's metadata and records. Persisting and replaying is
/// therefore faithful, file by file.
#[verifier::rlimit(60)]
pub proof fn lemma_request_roundtrip(iv: InfoV, rs: Seq<ObjectHashV>)
    ensures
        p_request(json_request(iv, rs)) == Some((iv, rs)),
{
    let s = json_request(iv, rs);
    let a1 = json_info(iv) + (lit_records() + (json_records_rest(rs, true) + seq![']', '}']));
    assert(s =~= lit_info_open() + a1);
    lemma_p_lit(lit_info_open(), a1);
    let a2 = lit_records() + (json_records_rest(rs, true) + seq![']', '}']);
    lemma_p_info_roundtrip(iv, a2);
    let a3 = json_records_rest(rs, true) + seq![']', '}'];
    lemma_p_lit(lit_records(), a3);
    assert(a3 =~= json_records_rest(rs, true) + seq![']'] + seq!['}']);
    lemma_p_records_roundtrip(rs, seq!['}']);
    assert(seq!['}'] =~= lit_close());
}

} // verus!

verus! {

/// The decimal digits of `n`, most significant first.
pub open spec fn dec_digits(n: int) -> Seq<char>
    decreases n,
{
    if n < 10 {
        seq![hex_digit(if n < 0 {
            0
        } else {
            n
        })]
    } else {
        dec_digits(n / 10).push(hex_digit(n % 10))
    }
}

/// Appends the decimal digits of `x`.
fn push_dec(out: &mut Vec<char>, x: u64)
    ensures
        final(out)@ == old(out)@ + dec_digits(x as int),
    decreases x,
{
    if x < 10 {
        out.push(hex_char((x % 10) as u32));
        proof {
            assert(out@ =~= old(out)@ + dec_digits(x as int));
        }
    } else {
        push_dec(out, x / 10);
        out.push(hex_char((x % 10) as u32));
        proof {
            assert(out@ =~= old(out)@ + dec_digits(x as int / 10).push(hex_digit(x as int % 10)));
            assert(old(out)@ + dec_digits(x as int / 10).push(hex_digit(x as int % 10)) =~= old(
                out,
            )@ + dec_digits(x as int));
        }
    }
}

/// The decimal string of `x`, used as a persisted file's name.
pub fn u64_dec_string(x: u64) -> (r: String)
    ensures
        r@ == dec_digits(x as int),
{
    let mut out: Vec<char> = Vec::new();
    push_dec(&mut out, x);
    proof {
        assert(out@ =~= dec_digits(x as int));
    }
    chars_string(&out)
}

/// The lookup response text: `{"records":[...]}` with one info object per
/// matched report.
pub open spec fn json_infos_rest(rs: Seq<InfoV>, first: bool) -> Seq<char>
    decreases rs.len(),
{
    if rs.len() == 0 {
        Seq::empty()
    } else {
        (if first {
            Seq::<char>::empty()
        } else {
            seq![',']
        }) + json_info(rs[0]) + json_infos_rest(rs.drop_first(), false)
    }
}

pub open spec fn json_response(rs: Seq<InfoV>) -> Seq<char> {
    seq!['{', '"', 'r', 'e', 'c', 'o', 'r', 'd', 's', '"', ':', '['] + json_infos_rest(rs, true)
        + seq![']', '}']
}

proof fn lemma_infos_rest_split(rs: Seq<InfoV>, j: int, first: bool)
    requires
        0 <= j < rs.len(),
        first == (j == 0),
    ensures
        json_infos_rest(rs.skip(j), first) == (if first {
            Seq::<char>::empty()
        } else {
            seq![',']
        }) + json_info(rs[j]) + json_infos_rest(rs.skip(j + 1), false),
{
    assert(rs.skip(j).len() == rs.len() - j);
    assert(rs.skip(j)[0] == rs[j]);
    assert(rs.skip(j).drop_first() =~= rs.skip(j + 1));
}

/// The values of a sequence of infos.
pub open spec fn info_values(s: Seq<Info>) -> Seq<InfoV> {
    s.map_values(|i: Info| i@)
}

/// Builds the lookup response text.
#[verifier::rlimit(90)]
pub fn enc_response(records: &Vec<Info>) -> (r: Vec<char>)
    ensures
        r@ == json_response(info_values(records@)),
{
    let mut out: Vec<char> = Vec::new();
    out.push('{');
    out.push('"');
    out.push('r');
    out.push('e');
    out.push('c');
    out.push('o');
    out.push('r');
    out.push('d');
    out.push('s');
    out.push('"');
    out.push(':');
    out.push('[');
    let ghost ivs = info_values(records@);
    let ghost mid = out@;
    proof {
        assert(ivs.skip(0) =~= ivs);
    }
    let mut j: usize = 0;
    while j < records.len()
        invariant
            0 <= j <= records@.len(),
            ivs == info_values(records@),
            ivs.len() == records@.len(),
            out@ + json_infos_rest(ivs.skip(j as int), j == 0) == mid + json_infos_rest(ivs, true),
        decreases records@.len() - j,
    {
        let ghost pre = out@;
        if j > 0 {
            out.push(',');
        }
        enc_info(&mut out, &records[j]);
        proof {
            lemma_infos_rest_split(ivs, j as int, j == 0);
            assert(ivs[j as int] == records@[j as int]@);
            assert(out@ =~= pre + (if j == 0 {
                Seq::<char>::empty()
            } else {
                seq![',']
            }) + json_info(ivs[j as int]));
            assert(out@ + json_infos_rest(ivs.skip(j as int + 1), false) =~= pre + json_infos_rest(
                ivs.skip(j as int),
                j == 0,
            ));
        }
        j += 1;
    }
    proof {
        assert(ivs.skip(ivs.len() as int) =~= Seq::<InfoV>::empty());
        assert(json_infos_rest(ivs.skip(ivs.len() as int), records@.len() == 0)
            =~= Seq::<char>::empty());
    }
    out.push(']');
    out.push('}');
    proof {
        assert(out@ =~= json_response(info_values(records@)));
    }
    out
}

} // verus!
