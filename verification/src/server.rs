use vstd::prelude::*;
use crate::storage::{ObjectHash, ObjectHashV, views_of};
use crate::codec::{str_chars, chars_string};

verus! {

/// Where the server binds.
pub struct Config {
    pub address: String,
}

impl Config {
    pub fn new() -> (r: Config)
        ensures
            r.address@ == "0.0.0.0:8888"@,
    {
        Config { address: "0.0.0.0:8888".to_owned() }
    }

    pub fn with_address(self, address: &str) -> (r: Config)
        ensures
            r.address@ == address@,
    {
        Config { address: address.to_owned() }
    }
}

/// The encoded record payload of an insert request.
pub struct Payload {
    pub data: String,
}

/// The wire status text for a request's outcome.
pub fn make_status(ok: bool) -> (r: String)
    ensures
        ok ==> r@ == "{\"status\":\"ok\"}"@,
        !ok ==> r@ == "{\"status\":\"failed\"}"@,
{
    if ok {
        "{\"status\":\"ok\"}".to_owned()
    } else {
        "{\"status\":\"failed\"}".to_owned()
    }
}

/// What base64 decoding returns for a text, if it decodes.
pub uninterp spec fn b64_of(s: Seq<char>) -> Option<Seq<u8>>;

/// Relies on base64::decode (standard alphabet, version 0.13): the result is
/// a function of the input text alone; invalid base64 is refused.
#[verifier::external_body]
fn b64_decode(s: &str) -> (r: Option<Vec<u8>>)
    ensures
        match r {
            Some(v) => b64_of(s@) == Some(v@),
            None => b64_of(s@) is None,
        },
{
    match base64::decode(s) {
        Ok(v) => Some(v),
        Err(_) => None,
    }
}

/// What UTF-8 decoding returns for a byte sequence, if it decodes.
pub uninterp spec fn utf8_of(b: Seq<u8>) -> Option<Seq<char>>;

/// Relies on String::from_utf8: the result is a function of the bytes alone;
/// bytes that are not UTF-8 are refused.
#[verifier::external_body]
fn utf8_decode(b: Vec<u8>) -> (r: Option<String>)
    ensures
        match r {
            Some(s) => utf8_of(b@) == Some(s@),
            None => utf8_of(b@) is None,
        },
{
    String::from_utf8(b).ok()
}

/// What str::trim returns for a text.
pub uninterp spec fn trim_of(s: Seq<char>) -> Seq<char>;

/// Relies on str::trim: removing leading and trailing whitespace is a
/// function of the characters alone.
#[verifier::external_body]
fn trim_str(s: &str) -> (r: String)
    ensures
        r@ == trim_of(s@),
{
    s.trim().to_owned()
}

/// The index of the first occurrence of `c`, or -1.
pub open spec fn find_ch(t: Seq<char>, c: char) -> int
    decreases t.len(),
{
    if t.len() == 0 {
        -1
    } else if t[0] == c {
        0
    } else {
        let r = find_ch(t.drop_first(), c);
        if r < 0 {
            -1
        } else {
            1 + r
        }
    }
}

/// One payload line: the text before the first space is the hash, the text
/// after it is the object name, both trimmed; a line without a space is
/// dropped.
pub open spec fn parse_line(l: Seq<char>) -> Option<ObjectHashV> {
    let d = find_ch(l, ' ');
    if d < 0 {
        None
    } else {
        Some(ObjectHashV { name: trim_of(l.skip(d)), hash: trim_of(l.take(d)) })
    }
}

pub open spec fn opt_line(o: Option<ObjectHashV>) -> Seq<ObjectHashV> {
    match o {
        Some(x) => seq![x],
        None => Seq::empty(),
    }
}

/// The records of a decoded payload: one candidate per line.
pub open spec fn parse_lines(t: Seq<char>) -> Seq<ObjectHashV>
    decreases t.len(),
{
    let d = find_ch(t, '\n');
    if 0 <= d < t.len() {
        opt_line(parse_line(t.take(d))) + parse_lines(t.skip(d + 1))
    } else {
        opt_line(parse_line(t))
    }
}

proof fn lemma_find_ch(t: Seq<char>, c: char, d: int)
    requires
        0 <= d <= t.len(),
        forall|m: int| 0 <= m < d ==> t[m] != c,
        d < t.len() ==> t[d] == c,
    ensures
        find_ch(t, c) == if d < t.len() {
            d
        } else {
            -1
        },
    decreases t.len(),
{
    if t.len() == 0 {
    } else if t[0] == c {
        assert(d == 0);
    } else {
        let t1 = t.drop_first();
        assert(forall|m: int| 0 <= m < d - 1 ==> t1[m] != c);
        lemma_find_ch(t1, c, if d == 0 {
            0
        } else {
            d - 1
        });
    }
}

/// Bounds of a found index.
proof fn lemma_find_ch_range(t: Seq<char>, c: char)
    ensures
        -1 <= find_ch(t, c) < t.len(),
        find_ch(t, c) >= 0 ==> t[find_ch(t, c)] == c,
    decreases t.len(),
{
    if t.len() > 0 && t[0] != c {
        lemma_find_ch_range(t.drop_first(), c);
    }
}

/// Finds the first `c` at or after `from`.
fn find_char(cs: &Vec<char>, from: usize, c: char) -> (r: Option<usize>)
    requires
        from <= cs@.len(),
    ensures
        match r {
            Some(d) => from <= d < cs@.len() && cs@[d as int] == c && find_ch(
                cs@.skip(from as int),
                c,
            ) == d - from,
            None => find_ch(cs@.skip(from as int), c) == -1,
        },
{
    let mut d: usize = from;
    while d < cs.len()
        invariant
            from <= d <= cs@.len(),
            forall|m: int| from <= m < d ==> cs@[m] != c,
        decreases cs@.len() - d,
    {
        if cs[d] == c {
            proof {
                let t = cs@.skip(from as int);
                assert(forall|m: int| 0 <= m < d - from ==> t[m] == cs@[m + from] && t[m] != c);
                assert(t[d - from] == c);
                lemma_find_ch(t, c, d - from);
            }
            return Some(d);
        }
        d += 1;
    }
    proof {
        let t = cs@.skip(from as int);
        assert(forall|m: int| 0 <= m < t.len() ==> t[m] == cs@[m + from] && t[m] != c);
        lemma_find_ch(t, c, t.len() as int);
    }
    None
}

/// Copies `cs[a..b]` out.
fn copy_range(cs: &Vec<char>, a: usize, b: usize) -> (r: Vec<char>)
    requires
        a <= b <= cs@.len(),
    ensures
        r@ == cs@.subrange(a as int, b as int),
{
    let mut out: Vec<char> = Vec::new();
    let mut m: usize = a;
    while m < b
        invariant
            a <= m <= b <= cs@.len(),
            out@.len() == m - a,
            forall|x: int| 0 <= x < out@.len() ==> out@[x] == cs@[a + x],
        decreases b - m,
    {
        out.push(cs[m]);
        m += 1;
    }
    proof {
        assert(out@ =~= cs@.subrange(a as int, b as int));
    }
    out
}

/// Parses the lines `cs[from..]` into records, as `parse_lines` says.
fn parse_lines_exec(cs: &Vec<char>, from: usize) -> (r: Vec<ObjectHash>)
    requires
        from <= cs@.len(),
    ensures
        views_of(r@) == parse_lines(cs@.skip(from as int)),
    decreases cs@.len() - from,
{
    let n: usize = cs.len();
    let (line_end, next) = match find_char(cs, from, '\n') {
        Some(d) => (d, d + 1),
        None => (n, n),
    };
    let ghost t = cs@.skip(from as int);
    let mut out: Vec<ObjectHash> = Vec::new();
    let line = copy_range(cs, from, line_end);
    proof {
        assert(line@ =~= t.take(line_end - from as int));
        if find_ch(t, '\n') < 0 {
            assert(t.take(line_end - from as int) =~= t);
        }
    }
    match find_char(&line, 0, ' ') {
        Some(sp) => {
            proof {
                assert(line@.skip(0) =~= line@);
            }
            let hash_part = copy_range(&line, 0, sp);
            let name_part = copy_range(&line, sp, line.len());
            let hash_s = chars_string(&hash_part);
            let name_s = chars_string(&name_part);
            let hash = trim_str(hash_s.as_str());
            let name = trim_str(name_s.as_str());
            proof {
                assert(hash_part@ =~= line@.take(sp as int));
                assert(name_part@ =~= line@.skip(sp as int));
            }
            out.push(ObjectHash { name, hash });
        },
        None => {
            proof {
                assert(line@.skip(0) =~= line@);
            }
        },
    }
    if next >= cs.len() {
        proof {
            if find_ch(t, '\n') >= 0 {
                lemma_find_ch_range(t, '\n');
                assert(t.skip(find_ch(t, '\n') + 1) =~= cs@.skip(next as int));
                assert(cs@.skip(next as int).len() == 0);
                assert(parse_lines(cs@.skip(next as int)) =~= Seq::<ObjectHashV>::empty());
                assert(views_of(out@) =~= parse_lines(t));
            } else {
                assert(views_of(out@) =~= parse_lines(t));
            }
        }
        out
    } else {
        let mut rest = parse_lines_exec(cs, next);
        let ghost outv = views_of(out@);
        let ghost restv = views_of(rest@);
        proof {
            lemma_find_ch_range(t, '\n');
            assert(find_ch(t, '\n') == line_end - from as int);
            assert(t.skip(find_ch(t, '\n') + 1) =~= cs@.skip(next as int));
        }
        let mut all = out;
        all.append(&mut rest);
        proof {
            assert(views_of(all@) =~= outv + restv);
            assert(views_of(all@) =~= parse_lines(t));
        }
        all
    }
}

/// Decodes an insert payload: base64 text to bytes, bytes to UTF-8 text,
/// one record per line that holds a space. Fails exactly when the base64 or
/// the UTF-8 decoding fails.
pub fn decode_payload(data: &str) -> (r: Option<Vec<ObjectHash>>)
    ensures
        match b64_of(data@) {
            None => r is None,
            Some(bytes) => match utf8_of(bytes) {
                None => r is None,
                Some(text) => match r {
                    Some(v) => views_of(v@) == parse_lines(text),
                    None => false,
                },
            },
        },
{
    let bytes = match b64_decode(data) {
        Some(b) => b,
        None => {
            return None;
        },
    };
    let text = match utf8_decode(bytes) {
        Some(t) => t,
        None => {
            return None;
        },
    };
    let cs = str_chars(text.as_str());
    proof {
        assert(cs@.skip(0) =~= cs@);
    }
    Some(parse_lines_exec(&cs, 0))
}

} // verus!
