//! The persisted registry file format, written and read in full each time:
//! one record with one field, the ordered list of `{name, path}` entries.
//! Quotes and backslashes inside a name or path are backslash-escaped.

use vstd::prelude::*;

use crate::config::{entry_views, JavaverConfig, JavaverError, SDKConfig};
use crate::text::{chars_to_string, str_to_chars};

verus! {

/// How one character is written inside a quoted string.
pub open spec fn esc_char(c: char) -> Seq<char> {
    if c == '"' || c == '\\' {
        seq!['\\', c]
    } else {
        seq![c]
    }
}

/// How a whole character sequence is written inside a quoted string.
pub open spec fn esc(s: Seq<char>) -> Seq<char>
    decreases s.len(),
{
    if s.len() == 0 {
        Seq::empty()
    } else {
        esc_char(s[0]) + esc(s.drop_first())
    }
}

/// Escaping one more character appends its image.
proof fn lemma_esc_push(s: Seq<char>, c: char)
    ensures
        esc(s.push(c)) == esc(s) + esc_char(c),
    decreases s.len(),
{
    if s.len() == 0 {
        assert(s.push(c)[0] == c);
        assert(s.push(c).drop_first() =~= Seq::<char>::empty());
        assert(esc(s.push(c)) == esc_char(c) + esc(Seq::<char>::empty()));
        assert(esc_char(c) + Seq::<char>::empty() =~= esc_char(c));
        assert(esc(s) + esc_char(c) =~= esc_char(c));
    } else {
        assert(s.push(c)[0] == s[0]);
        assert(s.push(c).drop_first() =~= s.drop_first().push(c));
        lemma_esc_push(s.drop_first(), c);
        assert(esc(s.push(c)) =~= esc(s) + esc_char(c));
    }
}

/// The opening of an entry, up to where its name starts.
pub open spec fn entry_open() -> Seq<char> {
    seq!['{', '"', 'n', 'a', 'm', 'e', '"', ':', '"']
}

/// Between the end of the name and the start of the path.
pub open spec fn entry_mid() -> Seq<char> {
    seq![',', '"', 'p', 'a', 't', 'h', '"', ':', '"']
}

/// The closing brace of an entry.
pub open spec fn entry_close() -> Seq<char> {
    seq!['}']
}

/// The opening of the whole record, up to where its entry list starts.
pub open spec fn record_open() -> Seq<char> {
    seq!['{', '"', 's', 'd', 'k', '"', ':', '[']
}

/// The closing of the entry list and the record.
pub open spec fn record_close() -> Seq<char> {
    seq![']', '}']
}

/// The written form of one entry.
pub open spec fn spec_encode_entry(e: (Seq<char>, Seq<char>)) -> Seq<char> {
    entry_open() + esc(e.0) + seq!['"'] + entry_mid() + esc(e.1) + seq!['"'] + entry_close()
}

/// The written form of an entry list, comma-separated.
pub open spec fn spec_encode_entries(l: Seq<(Seq<char>, Seq<char>)>) -> Seq<char>
    decreases l.len(),
{
    if l.len() == 0 {
        Seq::empty()
    } else if l.len() == 1 {
        spec_encode_entry(l[0])
    } else {
        spec_encode_entry(l[0]) + seq![','] + spec_encode_entries(l.drop_first())
    }
}

/// Encoding one more entry appends a comma and its form.
proof fn lemma_encode_entries_push(l: Seq<(Seq<char>, Seq<char>)>, e: (Seq<char>, Seq<char>))
    ensures
        l.len() == 0 ==> spec_encode_entries(l.push(e)) == spec_encode_entry(e),
        l.len() > 0 ==> spec_encode_entries(l.push(e)) == spec_encode_entries(l) + seq![',']
            + spec_encode_entry(e),
    decreases l.len(),
{
    if l.len() == 0 {
        assert(l.push(e)[0] == e);
    } else {
        lemma_encode_entries_push(l.drop_first(), e);
        assert(l.push(e).drop_first() =~= l.drop_first().push(e));
        if l.len() == 1 {
            assert(spec_encode_entries(l.push(e)) =~= spec_encode_entry(l[0]) + seq![',']
                + spec_encode_entry(e));
        } else {
            assert(spec_encode_entries(l.push(e)) =~= spec_encode_entries(l) + seq![',']
                + spec_encode_entry(e));
        }
    }
}

/// The written form of the whole registry.
pub open spec fn spec_encode_config(r: Seq<(Seq<char>, Seq<char>)>) -> Seq<char> {
    record_open() + spec_encode_entries(r) + record_close()
}

/// Appends the escaped image of `s` to `out`.
fn escape_into(out: &mut Vec<char>, s: &str)
    ensures
        final(out)@ == old(out)@ + esc(s@),
{
    let n = s.unicode_len();
    let mut i: usize = 0;
    proof {
        assert(esc(s@.take(0)) =~= Seq::<char>::empty());
        assert(out@ + esc(s@.take(0)) =~= out@);
    }
    while i < n
        invariant
            n == s@.len(),
            i <= n,
            out@ == old(out)@ + esc(s@.take(i as int)),
        decreases n - i,
    {
        let ghost prev = out@;
        let c = s.get_char(i);
        if c == '"' || c == '\\' {
            out.push('\\');
            out.push(c);
            proof {
                assert(out@ =~= prev + esc_char(c));
            }
        } else {
            out.push(c);
            proof {
                assert(out@ =~= prev + esc_char(c));
            }
        }
        proof {
            assert(s@.take(i as int + 1) =~= s@.take(i as int).push(s@[i as int]));
            lemma_esc_push(s@.take(i as int), s@[i as int]);
            assert(out@ =~= old(out)@ + esc(s@.take(i as int + 1)));
        }
        i += 1;
    }
    proof {
        assert(s@.take(n as int) =~= s@);
    }
}

/// Appends the written form of one entry to `out`.
fn encode_entry_into(out: &mut Vec<char>, e: &SDKConfig)
    ensures
        final(out)@ == old(out)@ + spec_encode_entry(e@),
{
    let ghost start = out@;
    out.push('{');
    out.push('"');
    out.push('n');
    out.push('a');
    out.push('m');
    out.push('e');
    out.push('"');
    out.push(':');
    out.push('"');
    proof {
        assert(out@ =~= start + entry_open());
    }
    escape_into(out, e.name.as_str());
    out.push('"');
    out.push(',');
    out.push('"');
    out.push('p');
    out.push('a');
    out.push('t');
    out.push('h');
    out.push('"');
    out.push(':');
    out.push('"');
    proof {
        assert(out@ =~= start + entry_open() + esc(e.name@) + seq!['"'] + entry_mid());
    }
    escape_into(out, e.path.as_str());
    out.push('"');
    out.push('}');
    proof {
        assert(out@ =~= start + spec_encode_entry(e@));
    }
}

/// Serializes the registry to the text that the persisted file holds.
#[verifier::loop_isolation(false)]
pub fn encode_config(config: &JavaverConfig) -> (r: String)
    ensures
        r@ == spec_encode_config(config@),
{
    let mut out: Vec<char> = Vec::new();
    out.push('{');
    out.push('"');
    out.push('s');
    out.push('d');
    out.push('k');
    out.push('"');
    out.push(':');
    out.push('[');
    proof {
        assert(out@ =~= record_open());
        assert(spec_encode_entries(config@.take(0)) =~= Seq::<char>::empty());
        assert(out@ =~= record_open() + spec_encode_entries(config@.take(0)));
    }
    let n = config.sdk.len();
    let mut i: usize = 0;
    while i < n
        invariant
            n == config.sdk.len(),
            i <= n,
            out@ == record_open() + spec_encode_entries(config@.take(i as int)),
        decreases n - i,
    {
        let ghost prev = out@;
        if i > 0 {
            out.push(',');
        }
        encode_entry_into(&mut out, &config.sdk[i]);
        proof {
            assert(config@[i as int] == config.sdk@[i as int]@);
            assert(config@.take(i as int + 1) =~= config@.take(i as int).push(config@[i as int]));
            lemma_encode_entries_push(config@.take(i as int), config@[i as int]);
            if i > 0 {
                assert(out@ =~= prev + seq![','] + spec_encode_entry(config@[i as int]));
                assert(out@ =~= record_open() + spec_encode_entries(config@.take(i as int + 1)));
            } else {
                assert(config@.take(0) =~= Seq::<(Seq<char>, Seq<char>)>::empty());
                assert(out@ =~= record_open() + spec_encode_entries(config@.take(i as int + 1)));
            }
        }
        i += 1;
    }
    out.push(']');
    out.push('}');
    proof {
        assert(config@.take(n as int) =~= config@);
        assert(out@ =~= spec_encode_config(config@));
    }
    chars_to_string(&out)
}

/// Position `j` past a fixed piece of text starting at `i`, if it is there.
pub open spec fn spec_expect(s: Seq<char>, i: int, lit: Seq<char>) -> Option<int> {
    if 0 <= i && i + lit.len() <= s.len() && s.subrange(i, i + lit.len()) == lit {
        Some(i + lit.len())
    } else {
        None
    }
}

/// Reads a quoted string body starting at `i`: characters up to the first
/// unescaped quote, a backslash taking the next character literally. Yields
/// the unescaped text and the position past the closing quote.
pub open spec fn spec_parse_string(s: Seq<char>, i: int) -> Option<(Seq<char>, int)>
    decreases s.len() - i,
{
    if !(0 <= i < s.len()) {
        None
    } else if s[i] == '"' {
        Some((Seq::empty(), i + 1))
    } else if s[i] == '\\' {
        if i + 1 < s.len() {
            match spec_parse_string(s, i + 2) {
                Some(p) => Some((seq![s[i + 1]] + p.0, p.1)),
                None => None,
            }
        } else {
            None
        }
    } else {
        match spec_parse_string(s, i + 1) {
            Some(p) => Some((seq![s[i]] + p.0, p.1)),
            None => None,
        }
    }
}

/// A parsed string ends past where it began and within the text.
proof fn lemma_parse_string_bounds(s: Seq<char>, i: int)
    ensures
        match spec_parse_string(s, i) {
            Some(p) => i < p.1 <= s.len(),
            None => true,
        },
    decreases s.len() - i,
{
    if 0 <= i < s.len() {
        if s[i] == '"' {
        } else if s[i] == '\\' {
            if i + 1 < s.len() {
                lemma_parse_string_bounds(s, i + 2);
            }
        } else {
            lemma_parse_string_bounds(s, i + 1);
        }
    }
}

/// Reads one `{name, path}` entry starting at `i`.
pub open spec fn spec_parse_entry(s: Seq<char>, i: int) -> Option<((Seq<char>, Seq<char>), int)> {
    match spec_expect(s, i, entry_open()) {
        None => None,
        Some(j) => match spec_parse_string(s, j) {
            None => None,
            Some(name) => match spec_expect(s, name.1, entry_mid()) {
                None => None,
                Some(j2) => match spec_parse_string(s, j2) {
                    None => None,
                    Some(path) => match spec_expect(s, path.1, entry_close()) {
                        None => None,
                        Some(j3) => Some(((name.0, path.0), j3)),
                    },
                },
            },
        },
    }
}

/// A parsed entry ends past where it began and within the text.
proof fn lemma_parse_entry_bounds(s: Seq<char>, i: int)
    ensures
        match spec_parse_entry(s, i) {
            Some(p) => i < p.1 <= s.len(),
            None => true,
        },
{
    match spec_expect(s, i, entry_open()) {
        None => {},
        Some(j) => {
            lemma_parse_string_bounds(s, j);
            match spec_parse_string(s, j) {
                None => {},
                Some(name) => {
                    match spec_expect(s, name.1, entry_mid()) {
                        None => {},
                        Some(j2) => {
                            lemma_parse_string_bounds(s, j2);
                        },
                    }
                },
            }
        },
    }
}

/// Reads a comma-separated list of entries starting at `i`. A parsed entry
/// always ends past where it began; the inner bound restates that so the
/// recursion is well-founded.
pub open spec fn spec_parse_entries(s: Seq<char>, i: int) -> Option<
    (Seq<(Seq<char>, Seq<char>)>, int),
>
    decreases s.len() - i,
{
    match spec_parse_entry(s, i) {
        None => None,
        Some(p) => if p.1 < s.len() && s[p.1] == ',' {
            if i < p.1 {
                match spec_parse_entries(s, p.1 + 1) {
                    None => None,
                    Some(q) => Some((seq![p.0] + q.0, q.1)),
                }
            } else {
                None
            }
        } else {
            Some((seq![p.0], p.1))
        },
    }
}

/// A parsed entry list ends past where it began and within the text.
proof fn lemma_parse_entries_bounds(s: Seq<char>, i: int)
    ensures
        match spec_parse_entries(s, i) {
            Some(p) => i < p.1 <= s.len(),
            None => true,
        },
    decreases s.len() - i,
{
    lemma_parse_entry_bounds(s, i);
    match spec_parse_entry(s, i) {
        None => {},
        Some(p) => {
            if p.1 < s.len() && s[p.1] == ',' && i < p.1 {
                lemma_parse_entries_bounds(s, p.1 + 1);
            }
        },
    }
}

/// Reads a whole registry record; the text must carry exactly one.
pub open spec fn spec_parse_config(s: Seq<char>) -> Option<Seq<(Seq<char>, Seq<char>)>> {
    match spec_expect(s, 0, record_open()) {
        None => None,
        Some(i) => if spec_expect(s, i, record_close()) == Some(s.len() as int) {
            Some(Seq::empty())
        } else {
            match spec_parse_entries(s, i) {
                None => None,
                Some(p) => if spec_expect(s, p.1, record_close()) == Some(s.len() as int) {
                    Some(p.0)
                } else {
                    None
                },
            }
        },
    }
}

/// Checks for a fixed piece of text at `i`.
#[verifier::loop_isolation(false)]
fn expect_at(v: &Vec<char>, i: usize, lit: &Vec<char>) -> (r: Option<usize>)
    ensures
        match r {
            Some(j) => spec_expect(v@, i as int, lit@) == Some(j as int),
            None => spec_expect(v@, i as int, lit@) is None,
        },
{
    if lit.len() > v.len() || i > v.len() - lit.len() {
        return None;
    }
    let mut k: usize = 0;
    while k < lit.len()
        invariant
            k <= lit@.len(),
            forall|m: int| 0 <= m < k ==> v@[i + m] == lit@[m],
        decreases lit@.len() - k,
    {
        if v[i + k] != lit[k] {
            proof {
                let sub = v@.subrange(i as int, i as int + lit@.len() as int);
                assert(sub[k as int] == v@[i as int + k as int]);
                assert(sub != lit@);
            }
            return None;
        }
        k += 1;
    }
    proof {
        assert(v@.subrange(i as int, i as int + lit@.len() as int) =~= lit@);
    }
    Some(i + lit.len())
}

/// What remains to be read of a string body: reading on from `j` with `acc`
/// already gathered lands where reading from `i` does.
spec fn parse_string_cont(v: Seq<char>, i: int, acc: Seq<char>, j: int) -> bool {
    match spec_parse_string(v, j) {
        Some(p) => spec_parse_string(v, i) == Some((acc + p.0, p.1)),
        None => spec_parse_string(v, i) is None,
    }
}

/// Reads a quoted string body at `i`, unescaping as it goes.
#[verifier::loop_isolation(false)]
fn parse_string_at(v: &Vec<char>, i: usize) -> (r: Option<(String, usize)>)
    ensures
        match r {
            Some(p) => spec_parse_string(v@, i as int) == Some((p.0@, p.1 as int)),
            None => spec_parse_string(v@, i as int) is None,
        },
{
    let mut acc: Vec<char> = Vec::new();
    let mut j: usize = i;
    proof {
        match spec_parse_string(v@, i as int) {
            Some(p) => {
                assert(acc@ + p.0 =~= p.0);
            },
            None => {},
        }
    }
    while j < v.len()
        invariant
            i <= j,
            parse_string_cont(v@, i as int, acc@, j as int),
        decreases v@.len() - j,
    {
        let c = v[j];
        let ghost prev = acc@;
        if c == '"' {
            proof {
                assert(spec_parse_string(v@, j as int) == Some((
                    Seq::<char>::empty(),
                    j as int + 1,
                )));
                assert(acc@ + Seq::<char>::empty() =~= acc@);
            }
            return Some((chars_to_string(&acc), j + 1));
        } else if c == '\\' {
            if j + 1 < v.len() {
                acc.push(v[j + 1]);
                proof {
                    match spec_parse_string(v@, j as int + 2) {
                        Some(p) => {
                            assert(acc@ + p.0 =~= prev + (seq![v@[j as int + 1]] + p.0));
                        },
                        None => {},
                    }
                }
                j += 2;
            } else {
                return None;
            }
        } else {
            acc.push(c);
            proof {
                match spec_parse_string(v@, j as int + 1) {
                    Some(p) => {
                        assert(acc@ + p.0 =~= prev + (seq![v@[j as int]] + p.0));
                    },
                    None => {},
                }
            }
            j += 1;
        }
    }
    None
}

/// Reads one entry at `i`.
fn parse_entry_at(v: &Vec<char>, i: usize) -> (r: Option<(SDKConfig, usize)>)
    ensures
        match r {
            Some(p) => spec_parse_entry(v@, i as int) == Some((p.0@, p.1 as int)),
            None => spec_parse_entry(v@, i as int) is None,
        },
{
    let open_lit = vec!['{', '"', 'n', 'a', 'm', 'e', '"', ':', '"'];
    proof {
        assert(open_lit@ =~= entry_open());
    }
    let j = match expect_at(v, i, &open_lit) {
        Some(j) => j,
        None => {
            return None;
        },
    };
    let (name, j2) = match parse_string_at(v, j) {
        Some(p) => p,
        None => {
            return None;
        },
    };
    let mid_lit = vec![',', '"', 'p', 'a', 't', 'h', '"', ':', '"'];
    proof {
        assert(mid_lit@ =~= entry_mid());
    }
    let j3 = match expect_at(v, j2, &mid_lit) {
        Some(j3) => j3,
        None => {
            return None;
        },
    };
    let (path, j4) = match parse_string_at(v, j3) {
        Some(p) => p,
        None => {
            return None;
        },
    };
    let close_lit = vec!['}'];
    proof {
        assert(close_lit@ =~= entry_close());
    }
    let j5 = match expect_at(v, j4, &close_lit) {
        Some(j5) => j5,
        None => {
            return None;
        },
    };
    Some((SDKConfig { name, path }, j5))
}

/// Reads a comma-separated entry list at `i`.
fn parse_entries_at(v: &Vec<char>, i: usize) -> (r: Option<(Vec<SDKConfig>, usize)>)
    ensures
        match r {
            Some(p) => spec_parse_entries(v@, i as int) == Some((entry_views(p.0@), p.1 as int)),
            None => spec_parse_entries(v@, i as int) is None,
        },
    decreases v@.len() - i,
{
    let (e, j) = match parse_entry_at(v, i) {
        Some(p) => p,
        None => {
            return None;
        },
    };
    proof {
        lemma_parse_entry_bounds(v@, i as int);
    }
    let ghost ev = e@;
    if j < v.len() && v[j] == ',' {
        match parse_entries_at(v, j + 1) {
            Some((rest, k)) => {
                let ghost rv = entry_views(rest@);
                let mut out = rest;
                out.insert(0, e);
                proof {
                    assert(entry_views(out@) =~= seq![ev] + rv);
                }
                Some((out, k))
            },
            None => None,
        }
    } else {
        let mut out: Vec<SDKConfig> = Vec::new();
        out.push(e);
        proof {
            assert(entry_views(out@) =~= seq![ev]);
        }
        Some((out, j))
    }
}

/// Deserializes the persisted registry text; fails with `Deserialize`
/// exactly on text that no registry encodes to.
pub fn parse_config(s: &str) -> (r: Result<JavaverConfig, JavaverError>)
    ensures
        match r {
            Ok(c) => spec_parse_config(s@) == Some(c@),
            Err(e) => e == JavaverError::Deserialize && spec_parse_config(s@) is None,
        },
{
    let v = str_to_chars(s);
    let open_lit = vec!['{', '"', 's', 'd', 'k', '"', ':', '['];
    proof {
        assert(open_lit@ =~= record_open());
    }
    let i = match expect_at(&v, 0, &open_lit) {
        Some(i) => i,
        None => {
            return Err(JavaverError::Deserialize);
        },
    };
    let close_lit = vec![']', '}'];
    proof {
        assert(close_lit@ =~= record_close());
    }
    let empty_end = match expect_at(&v, i, &close_lit) {
        Some(j) => j == v.len(),
        None => false,
    };
    if empty_end {
        let c = JavaverConfig { sdk: Vec::new() };
        proof {
            assert(c@ =~= Seq::<(Seq<char>, Seq<char>)>::empty());
        }
        return Ok(c);
    }
    let (entries, j) = match parse_entries_at(&v, i) {
        Some(p) => p,
        None => {
            return Err(JavaverError::Deserialize);
        },
    };
    let end = match expect_at(&v, j, &close_lit) {
        Some(k) => k == v.len(),
        None => false,
    };
    if end {
        Ok(JavaverConfig { sdk: entries })
    } else {
        Err(JavaverError::Deserialize)
    }
}

/// A window of a window: cutting `[a, b)` out of the piece of `v` that
/// equals `w` gives the same characters as cutting `[a, b)` out of `w`.
proof fn lemma_subrange_within(v: Seq<char>, i: int, w: Seq<char>, a: int, b: int)
    requires
        0 <= i,
        i + w.len() <= v.len(),
        v.subrange(i, i + w.len()) == w,
        0 <= a <= b <= w.len(),
    ensures
        v.subrange(i + a, i + b) == w.subrange(a, b),
{
    assert forall|k: int| 0 <= k < b - a implies v.subrange(i + a, i + b)[k] == w.subrange(
        a,
        b,
    )[k] by {
        assert(v.subrange(i, i + w.len() as int)[a + k] == v[i + a + k]);
    }
    assert(v.subrange(i + a, i + b) =~= w.subrange(a, b));
}

/// Reading a string body over the escaped image of `s`, closed by a quote,
/// yields `s` back and stops right past that quote.
proof fn lemma_parse_string_of_esc(v: Seq<char>, i: int, s: Seq<char>)
    requires
        0 <= i,
        i + esc(s).len() + 1 <= v.len(),
        v.subrange(i, i + esc(s).len()) == esc(s),
        v[i + esc(s).len()] == '"',
    ensures
        spec_parse_string(v, i) == Some((s, i + esc(s).len() + 1)),
    decreases s.len(),
{
    if s.len() == 0 {
        assert(esc(s).len() == 0);
        assert(v[i] == '"');
        assert(spec_parse_string(v, i) == Some((Seq::<char>::empty(), i + 1)));
        assert(s =~= Seq::<char>::empty());
    } else {
        let c = s[0];
        let s1 = s.drop_first();
        assert(esc(s) == esc_char(c) + esc(s1));
        let el = esc(s).len() as int;
        assert(v.subrange(i, i + el)[0] == v[i]);
        if c == '"' || c == '\\' {
            assert(esc(s)[0] == '\\');
            assert(esc(s)[1] == c);
            assert(v[i] == '\\');
            assert(v.subrange(i, i + el)[1] == v[i + 1]);
            assert(v[i + 1] == c);
            lemma_subrange_within(v, i, esc(s), 2, el);
            assert(esc(s).subrange(2, el) =~= esc(s1));
            assert(i + 2 + esc(s1).len() == i + el);
            lemma_parse_string_of_esc(v, i + 2, s1);
            assert(seq![v[i + 1]] + s1 =~= s);
        } else {
            assert(esc(s)[0] == c);
            assert(v[i] == c);
            lemma_subrange_within(v, i, esc(s), 1, el);
            assert(esc(s).subrange(1, el) =~= esc(s1));
            assert(i + 1 + esc(s1).len() == i + el);
            lemma_parse_string_of_esc(v, i + 1, s1);
            assert(seq![v[i]] + s1 =~= s);
        }
    }
}

/// Reading an entry over the written form of `e` yields `e` back and stops
/// right past it.
proof fn lemma_parse_entry_of_encode(v: Seq<char>, i: int, e: (Seq<char>, Seq<char>))
    requires
        0 <= i,
        i + spec_encode_entry(e).len() <= v.len(),
        v.subrange(i, i + spec_encode_entry(e).len()) == spec_encode_entry(e),
    ensures
        spec_parse_entry(v, i) == Some((e, i + spec_encode_entry(e).len())),
{
    let w = spec_encode_entry(e);
    let wl = w.len() as int;
    let en = esc(e.0).len() as int;
    let ep = esc(e.1).len() as int;
    assert(wl == 21 + en + ep);
    lemma_subrange_within(v, i, w, 0, 9);
    assert(w.subrange(0, 9) =~= entry_open());
    assert(spec_expect(v, i, entry_open()) == Some(i + 9));
    lemma_subrange_within(v, i, w, 9, 9 + en);
    assert(w.subrange(9, 9 + en) =~= esc(e.0));
    assert(v.subrange(i, i + wl)[9 + en] == v[i + 9 + en]);
    assert(w[9 + en] == '"');
    lemma_parse_string_of_esc(v, i + 9, e.0);
    assert(spec_parse_string(v, i + 9) == Some((e.0, i + 10 + en)));
    lemma_subrange_within(v, i, w, 10 + en, 19 + en);
    assert(w.subrange(10 + en, 19 + en) =~= entry_mid());
    assert(spec_expect(v, i + 10 + en, entry_mid()) == Some(i + 19 + en));
    lemma_subrange_within(v, i, w, 19 + en, 19 + en + ep);
    assert(w.subrange(19 + en, 19 + en + ep) =~= esc(e.1));
    assert(v.subrange(i, i + wl)[19 + en + ep] == v[i + 19 + en + ep]);
    assert(w[19 + en + ep] == '"');
    lemma_parse_string_of_esc(v, i + 19 + en, e.1);
    assert(spec_parse_string(v, i + 19 + en) == Some((e.1, i + 20 + en + ep)));
    lemma_subrange_within(v, i, w, 20 + en + ep, 21 + en + ep);
    assert(w.subrange(20 + en + ep, 21 + en + ep) =~= entry_close());
    assert(spec_expect(v, i + 20 + en + ep, entry_close()) == Some(i + wl));
    assert((e.0, e.1) == e);
}

/// Reading an entry list over the written form of `l`, not followed by a
/// comma, yields `l` back and stops right past it.
proof fn lemma_parse_entries_of_encode(v: Seq<char>, i: int, l: Seq<(Seq<char>, Seq<char>)>)
    requires
        l.len() >= 1,
        0 <= i,
        i + spec_encode_entries(l).len() <= v.len(),
        v.subrange(i, i + spec_encode_entries(l).len()) == spec_encode_entries(l),
        i + spec_encode_entries(l).len() == v.len() || v[i + spec_encode_entries(l).len()] != ',',
    ensures
        spec_parse_entries(v, i) == Some((l, i + spec_encode_entries(l).len())),
    decreases l.len(),
{
    let w = spec_encode_entries(l);
    let wl = w.len() as int;
    if l.len() == 1 {
        assert(w == spec_encode_entry(l[0]));
        lemma_parse_entry_of_encode(v, i, l[0]);
        assert(seq![l[0]] =~= l);
    } else {
        let e0 = l[0];
        let l1 = l.drop_first();
        assert(w == spec_encode_entry(e0) + seq![','] + spec_encode_entries(l1));
        let d0 = spec_encode_entry(e0).len() as int;
        let dl = spec_encode_entries(l1).len() as int;
        assert(wl == d0 + 1 + dl);
        lemma_subrange_within(v, i, w, 0, d0);
        assert(w.subrange(0, d0) =~= spec_encode_entry(e0));
        lemma_parse_entry_of_encode(v, i, e0);
        assert(v.subrange(i, i + wl)[d0] == v[i + d0]);
        assert(w[d0] == ',');
        assert(d0 > 0);
        lemma_subrange_within(v, i, w, d0 + 1, wl);
        assert(w.subrange(d0 + 1, wl) =~= spec_encode_entries(l1));
        lemma_parse_entries_of_encode(v, i + d0 + 1, l1);
        assert(seq![e0] + l1 =~= l);
    }
}

/// Round trip: reading back the written form of any registry yields that
/// registry, entry for entry, in order.
pub proof fn lemma_config_round_trip(r: Seq<(Seq<char>, Seq<char>)>)
    ensures
        spec_parse_config(spec_encode_config(r)) == Some(r),
{
    let s = spec_encode_config(r);
    let enc = spec_encode_entries(r);
    assert(s.len() == 10 + enc.len());
    assert(s.subrange(0, 8) =~= record_open());
    assert(spec_expect(s, 0, record_open()) == Some(8int));
    if r.len() == 0 {
        assert(enc.len() == 0);
        assert(s.subrange(8, 10) =~= record_close());
        assert(spec_expect(s, 8, record_close()) == Some(10int));
        assert(r =~= Seq::<(Seq<char>, Seq<char>)>::empty());
    } else {
        if r.len() == 1 {
            assert(enc == spec_encode_entry(r[0]));
            assert(enc.len() >= 21);
        } else {
            assert(enc == spec_encode_entry(r[0]) + seq![','] + spec_encode_entries(
                r.drop_first(),
            ));
            assert(enc.len() >= 21);
        }
        assert(s.len() > 10);
        assert(spec_expect(s, 8, record_close()) != Some(s.len() as int));
        assert(s.subrange(8, 8 + enc.len() as int) =~= enc);
        assert(s[8 + enc.len() as int] == ']');
        lemma_parse_entries_of_encode(s, 8, r);
        assert(s.subrange(8 + enc.len() as int, 10 + enc.len() as int) =~= record_close());
        assert(spec_expect(s, 8 + enc.len() as int, record_close()) == Some(s.len() as int));
    }
}

} // verus!
