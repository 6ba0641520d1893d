//! The tabular text format that the persisted model and the tokenized
//! corpus are stored in. A table is a sequence of records; every field is
//! written quoted, with inner quotes doubled, fields are joined by commas,
//! and each record ends with a newline. A record with no fields is written
//! as a bare newline. The parser also accepts unquoted fields, so any cell
//! free of quotes, commas and newlines may appear bare.
//!
//! Writing then reading a table gives the records back exactly
//! ([`lemma_table_round_trip`]).

use vstd::prelude::*;

verus! {

// ---------------------------------------------------------------------------
// Encoding
// ---------------------------------------------------------------------------

/// A field's characters with every quote doubled.
pub open spec fn esc(f: Seq<char>) -> Seq<char>
    decreases f.len(),
{
    if f.len() == 0 {
        Seq::empty()
    } else {
        (if f[0] == '"' {
            seq!['"', '"']
        } else {
            seq![f[0]]
        }) + esc(f.skip(1))
    }
}

/// A written field: quoted, with inner quotes doubled.
pub open spec fn enc_field(f: Seq<char>) -> Seq<char> {
    seq!['"'] + esc(f) + seq!['"']
}

/// One or more written fields joined by commas.
pub open spec fn enc_fields(fs: Seq<Seq<char>>) -> Seq<char>
    decreases fs.len(),
{
    if fs.len() == 0 {
        Seq::empty()
    } else if fs.len() == 1 {
        enc_field(fs[0])
    } else {
        enc_field(fs[0]) + seq![','] + enc_fields(fs.skip(1))
    }
}

/// A written record: its fields, then a newline.
pub open spec fn enc_record(r: Seq<Seq<char>>) -> Seq<char> {
    enc_fields(r) + seq!['\n']
}

/// A written table: its records, one after the other.
pub open spec fn enc_table(rs: Seq<Seq<Seq<char>>>) -> Seq<char>
    decreases rs.len(),
{
    if rs.len() == 0 {
        Seq::empty()
    } else {
        enc_record(rs[0]) + enc_table(rs.skip(1))
    }
}

// ---------------------------------------------------------------------------
// Parsing
// ---------------------------------------------------------------------------

/// Reads the body of a quoted field (after its opening quote): characters up
/// to an unpaired quote, with doubled quotes standing for one quote. Yields
/// the field and the unread remainder; `None` when the quote is never
/// closed.
pub open spec fn p_qbody(s: Seq<char>) -> Option<(Seq<char>, Seq<char>)>
    decreases s.len(),
{
    if s.len() == 0 {
        None
    } else if s[0] != '"' {
        match p_qbody(s.skip(1)) {
            Some(p) => Some((seq![s[0]] + p.0, p.1)),
            None => None,
        }
    } else if s.len() >= 2 && s[1] == '"' {
        match p_qbody(s.skip(2)) {
            Some(p) => Some((seq!['"'] + p.0, p.1)),
            None => None,
        }
    } else {
        Some((Seq::empty(), s.skip(1)))
    }
}

/// Reads an unquoted field: characters up to a comma, a newline or the end.
/// `None` when a quote appears inside.
pub open spec fn p_raw(s: Seq<char>) -> Option<(Seq<char>, Seq<char>)>
    decreases s.len(),
{
    if s.len() == 0 {
        Some((Seq::empty(), Seq::empty()))
    } else if s[0] == ',' || s[0] == '\n' {
        Some((Seq::empty(), s))
    } else if s[0] == '"' {
        None
    } else {
        match p_raw(s.skip(1)) {
            Some(p) => Some((seq![s[0]] + p.0, p.1)),
            None => None,
        }
    }
}

/// Reads one field, quoted or bare.
pub open spec fn p_field(s: Seq<char>) -> Option<(Seq<char>, Seq<char>)> {
    if s.len() >= 1 && s[0] == '"' {
        p_qbody(s.skip(1))
    } else {
        p_raw(s)
    }
}

pub proof fn lemma_p_qbody_len(s: Seq<char>)
    ensures
        match p_qbody(s) {
            Some(p) => p.1.len() < s.len(),
            None => true,
        },
    decreases s.len(),
{
    if s.len() == 0 {
    } else if s[0] != '"' {
        lemma_p_qbody_len(s.skip(1));
    } else if s.len() >= 2 && s[1] == '"' {
        lemma_p_qbody_len(s.skip(2));
    } else {
    }
}

pub proof fn lemma_p_raw_len(s: Seq<char>)
    ensures
        match p_raw(s) {
            Some(p) => p.1.len() <= s.len(),
            None => true,
        },
    decreases s.len(),
{
    if s.len() == 0 {
    } else if s[0] == ',' || s[0] == '\n' {
    } else if s[0] == '"' {
    } else {
        lemma_p_raw_len(s.skip(1));
    }
}

pub proof fn lemma_p_field_len(s: Seq<char>)
    ensures
        match p_field(s) {
            Some(p) => p.1.len() <= s.len(),
            None => true,
        },
{
    if s.len() >= 1 && s[0] == '"' {
        lemma_p_qbody_len(s.skip(1));
    } else {
        lemma_p_raw_len(s);
    }
}

/// Reads the fields of one record up to and including its newline.
pub open spec fn p_fields(s: Seq<char>) -> Option<(Seq<Seq<char>>, Seq<char>)>
    decreases s.len(),
    via p_fields_decreases
{
    match p_field(s) {
        None => None,
        Some(p) => {
            let (f, rest) = p;
            if rest.len() == 0 {
                None
            } else if rest[0] == '\n' {
                Some((seq![f], rest.skip(1)))
            } else if rest[0] == ',' {
                match p_fields(rest.skip(1)) {
                    Some(q) => Some((seq![f] + q.0, q.1)),
                    None => None,
                }
            } else {
                None
            }
        },
    }
}

#[via_fn]
proof fn p_fields_decreases(s: Seq<char>) {
    lemma_p_field_len(s);
}

pub proof fn lemma_p_fields_len(s: Seq<char>)
    ensures
        match p_fields(s) {
            Some(p) => p.1.len() < s.len(),
            None => true,
        },
    decreases s.len(),
{
    lemma_p_field_len(s);
    match p_field(s) {
        None => {},
        Some(p) => {
            let (f, rest) = p;
            if rest.len() == 0 {
            } else if rest[0] == '\n' {
            } else if rest[0] == ',' {
                lemma_p_fields_len(rest.skip(1));
            } else {
            }
        },
    }
}

/// Reads a whole table: records up to the end of the text. A bare newline is
/// a record with no fields.
pub open spec fn p_table(s: Seq<char>) -> Option<Seq<Seq<Seq<char>>>>
    decreases s.len(),
    via p_table_decreases
{
    if s.len() == 0 {
        Some(Seq::empty())
    } else if s[0] == '\n' {
        match p_table(s.skip(1)) {
            Some(rs) => Some(seq![Seq::<Seq<char>>::empty()] + rs),
            None => None,
        }
    } else {
        match p_fields(s) {
            Some(p) => match p_table(p.1) {
                Some(rs) => Some(seq![p.0] + rs),
                None => None,
            },
            None => None,
        }
    }
}

#[via_fn]
proof fn p_table_decreases(s: Seq<char>) {
    lemma_p_fields_len(s);
}

// ---------------------------------------------------------------------------
// Round trip
// ---------------------------------------------------------------------------

proof fn lemma_qbody_round_trip(f: Seq<char>, rest: Seq<char>)
    requires
        rest.len() >= 1,
        rest[0] != '"',
    ensures
        p_qbody(esc(f) + seq!['"'] + rest) == Some((f, rest)),
    decreases f.len(),
{
    let s = esc(f) + seq!['"'] + rest;
    if f.len() == 0 {
        assert(s =~= seq!['"'] + rest);
        assert(s[0] == '"');
        assert(s.len() >= 2 ==> s[1] == rest[0]);
        assert(s.skip(1) =~= rest);
    } else if f[0] != '"' {
        lemma_qbody_round_trip(f.skip(1), rest);
        assert(esc(f) =~= seq![f[0]] + esc(f.skip(1)));
        assert(s[0] == f[0]);
        assert(s.skip(1) =~= esc(f.skip(1)) + seq!['"'] + rest);
        assert(seq![f[0]] + f.skip(1) =~= f);
    } else {
        lemma_qbody_round_trip(f.skip(1), rest);
        assert(esc(f) =~= seq!['"', '"'] + esc(f.skip(1)));
        assert(s[0] == '"');
        assert(s.len() >= 2 && s[1] == '"');
        assert(s.skip(2) =~= esc(f.skip(1)) + seq!['"'] + rest);
        assert(seq!['"'] + f.skip(1) =~= f);
    }
}

proof fn lemma_field_round_trip(f: Seq<char>, rest: Seq<char>)
    requires
        rest.len() >= 1,
        rest[0] != '"',
    ensures
        p_field(enc_field(f) + rest) == Some((f, rest)),
{
    let s = enc_field(f) + rest;
    assert(s[0] == '"');
    assert(s.skip(1) =~= esc(f) + seq!['"'] + rest);
    lemma_qbody_round_trip(f, rest);
}

proof fn lemma_fields_round_trip(fs: Seq<Seq<char>>, t: Seq<char>)
    requires
        fs.len() >= 1,
    ensures
        p_fields(enc_fields(fs) + seq!['\n'] + t) == Some((fs, t)),
    decreases fs.len(),
{
    let s = enc_fields(fs) + seq!['\n'] + t;
    if fs.len() == 1 {
        let rest = seq!['\n'] + t;
        assert(s =~= enc_field(fs[0]) + rest);
        lemma_field_round_trip(fs[0], rest);
        assert(rest.skip(1) =~= t);
        assert(seq![fs[0]] =~= fs);
    } else {
        let rest = seq![','] + enc_fields(fs.skip(1)) + seq!['\n'] + t;
        assert(s =~= enc_field(fs[0]) + rest);
        lemma_field_round_trip(fs[0], rest);
        assert(rest[0] == ',');
        assert(rest.skip(1) =~= enc_fields(fs.skip(1)) + seq!['\n'] + t);
        lemma_fields_round_trip(fs.skip(1), t);
        assert(seq![fs[0]] + fs.skip(1) =~= fs);
    }
}

/// Reading a written table gives back exactly the records that were written.
pub proof fn lemma_table_round_trip(rs: Seq<Seq<Seq<char>>>)
    ensures
        p_table(enc_table(rs)) == Some(rs),
    decreases rs.len(),
{
    let s = enc_table(rs);
    if rs.len() == 0 {
        assert(s =~= Seq::<char>::empty());
    } else {
        lemma_table_round_trip(rs.skip(1));
        let r0 = rs[0];
        if r0.len() == 0 {
            assert(enc_record(r0) =~= seq!['\n']);
            assert(s =~= seq!['\n'] + enc_table(rs.skip(1)));
            assert(s[0] == '\n');
            assert(s.skip(1) =~= enc_table(rs.skip(1)));
            assert(seq![Seq::<Seq<char>>::empty()] + rs.skip(1) =~~= rs);
        } else {
            assert(s =~= enc_fields(r0) + seq!['\n'] + enc_table(rs.skip(1)));
            lemma_fields_round_trip(r0, enc_table(rs.skip(1)));
            assert(enc_fields(r0)[0] == '"') by {
                if r0.len() == 1 {
                    assert(enc_fields(r0) == enc_field(r0[0]));
                } else {
                    assert(enc_fields(r0) == enc_field(r0[0]) + seq![','] + enc_fields(r0.skip(1)));
                }
                assert(enc_field(r0[0])[0] == '"');
            }
            assert(s[0] == '"');
            assert(seq![r0] + rs.skip(1) =~= rs);
        }
    }
}

// ---------------------------------------------------------------------------
// Executable parser
// ---------------------------------------------------------------------------

fn parse_qbody(s: &str, i: usize, n: usize) -> (r: Option<(String, usize)>)
    requires
        n == s@.len(),
        i <= n,
    ensures
        match r {
            Some(p) => i < p.1 <= n && p_qbody(s@.skip(i as int)) == Some((p.0@, s@.skip(p.1 as int))),
            None => p_qbody(s@.skip(i as int)) is None,
        },
    decreases n - i,
{
    let t = Ghost(s@.skip(i as int));
    if i == n {
        proof {
            assert(t@ =~= Seq::<char>::empty());
        }
        return None;
    }
    proof {
        assert(t@[0] == s@[i as int]);
        assert(t@.skip(1) =~= s@.skip(i + 1));
    }
    let c = s.get_char(i);
    if c != '"' {
        match parse_qbody(s, i + 1, n) {
            Some((f, j)) => {
                let piece = s.substring_char(i, i + 1).to_owned().concat(f.as_str());
                proof {
                    assert(piece@ =~= seq![s@[i as int]] + f@);
                }
                Some((piece, j))
            },
            None => None,
        }
    } else if i + 1 < n && s.get_char(i + 1) == '"' {
        proof {
            assert(t@.len() >= 2 && t@[1] == s@[i + 1]);
            assert(t@.skip(2) =~= s@.skip(i + 2));
        }
        match parse_qbody(s, i + 2, n) {
            Some((f, j)) => {
                proof {
                    reveal_strlit("\"");
                }
                let piece = "\"".to_owned().concat(f.as_str());
                proof {
                    assert(piece@ =~= seq!['"'] + f@);
                }
                Some((piece, j))
            },
            None => None,
        }
    } else {
        let empty = String::new();
        proof {
            assert(!(t@.len() >= 2 && t@[1] == '"'));
            assert(empty@ =~= Seq::<char>::empty());
        }
        Some((empty, i + 1))
    }
}

fn parse_raw(s: &str, i: usize, n: usize) -> (r: Option<(String, usize)>)
    requires
        n == s@.len(),
        i <= n,
    ensures
        match r {
            Some(p) => i <= p.1 <= n && p_raw(s@.skip(i as int)) == Some((p.0@, s@.skip(p.1 as int))),
            None => p_raw(s@.skip(i as int)) is None,
        },
    decreases n - i,
{
    let t = Ghost(s@.skip(i as int));
    if i == n {
        let empty = String::new();
        proof {
            assert(t@ =~= Seq::<char>::empty());
            assert(empty@ =~= Seq::<char>::empty());
        }
        return Some((empty, i));
    }
    proof {
        assert(t@[0] == s@[i as int]);
        assert(t@.skip(1) =~= s@.skip(i + 1));
    }
    let c = s.get_char(i);
    if c == ',' || c == '\n' {
        let empty = String::new();
        proof {
            assert(empty@ =~= Seq::<char>::empty());
        }
        Some((empty, i))
    } else if c == '"' {
        None
    } else {
        match parse_raw(s, i + 1, n) {
            Some((f, j)) => {
                let piece = s.substring_char(i, i + 1).to_owned().concat(f.as_str());
                proof {
                    assert(piece@ =~= seq![s@[i as int]] + f@);
                }
                Some((piece, j))
            },
            None => None,
        }
    }
}

fn parse_field(s: &str, i: usize, n: usize) -> (r: Option<(String, usize)>)
    requires
        n == s@.len(),
        i <= n,
    ensures
        match r {
            Some(p) => i <= p.1 <= n && p_field(s@.skip(i as int)) == Some((p.0@, s@.skip(p.1 as int))),
            None => p_field(s@.skip(i as int)) is None,
        },
{
    let t = Ghost(s@.skip(i as int));
    if i < n && s.get_char(i) == '"' {
        proof {
            assert(t@.len() >= 1 && t@[0] == '"');
            assert(t@.skip(1) =~= s@.skip(i + 1));
        }
        parse_qbody(s, i + 1, n)
    } else {
        proof {
            if i < n {
                assert(t@[0] == s@[i as int]);
            } else {
                assert(t@ =~= Seq::<char>::empty());
            }
        }
        parse_raw(s, i, n)
    }
}

fn parse_fields(s: &str, i: usize, n: usize) -> (r: Option<(Vec<String>, usize)>)
    requires
        n == s@.len(),
        i <= n,
    ensures
        match r {
            Some(p) => i < p.1 <= n && p_fields(s@.skip(i as int)) == Some(
                (p.0.deep_view(), s@.skip(p.1 as int)),
            ),
            None => p_fields(s@.skip(i as int)) is None,
        },
    decreases n - i,
{
    match parse_field(s, i, n) {
        None => None,
        Some((f, j)) => {
            let rest = Ghost(s@.skip(j as int));
            if j == n {
                proof {
                    assert(rest@ =~= Seq::<char>::empty());
                }
                None
            } else {
                proof {
                    assert(rest@[0] == s@[j as int]);
                    assert(rest@.skip(1) =~= s@.skip(j + 1));
                }
                let c = s.get_char(j);
                if c == '\n' {
                    let mut v: Vec<String> = Vec::new();
                    v.push(f);
                    proof {
                        assert(v.deep_view() =~~= seq![v@[0]@]);
                    }
                    Some((v, j + 1))
                } else if c == ',' {
                    match parse_fields(s, j + 1, n) {
                        Some((mut fs, k)) => {
                            let ghost old_dv = fs.deep_view();
                            let ghost fv = f@;
                            fs.insert(0, f);
                            proof {
                                assert(fs.deep_view() =~~= seq![fv] + old_dv);
                            }
                            Some((fs, k))
                        },
                        None => None,
                    }
                } else {
                    None
                }
            }
        },
    }
}

fn parse_table_from(s: &str, i: usize, n: usize) -> (r: Option<Vec<Vec<String>>>)
    requires
        n == s@.len(),
        i <= n,
    ensures
        match r {
            Some(v) => p_table(s@.skip(i as int)) == Some(v.deep_view()),
            None => p_table(s@.skip(i as int)) is None,
        },
    decreases n - i,
{
    let t = Ghost(s@.skip(i as int));
    if i == n {
        proof {
            assert(t@ =~= Seq::<char>::empty());
        }
        let v: Vec<Vec<String>> = Vec::new();
        proof {
            assert(v.deep_view() =~~= Seq::<Seq<Seq<char>>>::empty());
        }
        return Some(v);
    }
    proof {
        assert(t@[0] == s@[i as int]);
        assert(t@.skip(1) =~= s@.skip(i + 1));
    }
    if s.get_char(i) == '\n' {
        match parse_table_from(s, i + 1, n) {
            Some(mut v) => {
                let ghost old_dv = v.deep_view();
                v.insert(0, Vec::new());
                proof {
                    assert(v.deep_view() =~~= seq![Seq::<Seq<char>>::empty()] + old_dv);
                }
                Some(v)
            },
            None => None,
        }
    } else {
        match parse_fields(s, i, n) {
            Some((rec, j)) => {
                match parse_table_from(s, j, n) {
                    Some(mut v) => {
                        let ghost old_dv = v.deep_view();
                        let ghost rdv = rec.deep_view();
                        v.insert(0, rec);
                        proof {
                            assert(v.deep_view() =~~= seq![rdv] + old_dv);
                        }
                        Some(v)
                    },
                    None => None,
                }
            },
            None => None,
        }
    }
}

/// Parses a whole table; `None` exactly when the text is not in the format.
pub fn parse_table(s: &str) -> (r: Option<Vec<Vec<String>>>)
    ensures
        match r {
            Some(v) => p_table(s@) == Some(v.deep_view()),
            None => p_table(s@) is None,
        },
{
    let n = s.unicode_len();
    let r = parse_table_from(s, 0, n);
    proof {
        assert(s@.skip(0) =~= s@);
    }
    r
}

// ---------------------------------------------------------------------------
// Executable encoder
// ---------------------------------------------------------------------------

proof fn lemma_esc_concat(a: Seq<char>, b: Seq<char>)
    ensures
        esc(a + b) == esc(a) + esc(b),
    decreases a.len(),
{
    if a.len() == 0 {
        assert(a + b =~= b);
        assert(esc(a) + esc(b) =~= esc(b));
    } else {
        lemma_esc_concat(a.skip(1), b);
        assert((a + b).skip(1) =~= a.skip(1) + b);
        assert((a + b)[0] == a[0]);
        if a[0] == '"' {
            assert(esc(a + b) =~= seq!['"', '"'] + (esc(a.skip(1)) + esc(b)));
            assert(esc(a) + esc(b) =~= seq!['"', '"'] + (esc(a.skip(1)) + esc(b)));
        } else {
            assert(esc(a + b) =~= seq![a[0]] + (esc(a.skip(1)) + esc(b)));
            assert(esc(a) + esc(b) =~= seq![a[0]] + (esc(a.skip(1)) + esc(b)));
        }
    }
}

fn append_field(out: &mut String, f: &str)
    ensures
        final(out)@ == old(out)@ + enc_field(f@),
{
    proof {
        reveal_strlit("\"");
        reveal_strlit("\"\"");
    }
    let n = f.unicode_len();
    out.append("\"");
    let mut k: usize = 0;
    while k < n
        invariant
            n == f@.len(),
            k <= n,
            out@ == old(out)@ + seq!['"'] + esc(f@.take(k as int)),
        decreases n - k,
    {
        let ghost ch = f@[k as int];
        proof {
            reveal_strlit("\"\"");
            assert(f@.take(k + 1) =~= f@.take(k as int) + seq![ch]);
            lemma_esc_concat(f@.take(k as int), seq![ch]);
            assert(seq![ch].skip(1) =~= Seq::<char>::empty());
            assert(esc(seq![ch]) == (if ch == '"' {
                seq!['"', '"']
            } else {
                seq![ch]
            }) + esc(seq![ch].skip(1)));
            assert(esc(Seq::<char>::empty()) == Seq::<char>::empty());
        }
        let c = f.get_char(k);
        if c == '"' {
            out.append("\"\"");
            proof {
                assert("\"\""@ =~= seq!['"', '"']);
                assert(esc(seq![ch]) =~= seq!['"', '"']);
                assert(out@ =~= old(out)@ + seq!['"'] + esc(f@.take(k + 1)));
            }
        } else {
            let piece = f.substring_char(k, k + 1);
            proof {
                assert(piece@ =~= seq![ch]);
                assert(esc(seq![ch]) =~= seq![ch]);
            }
            out.append(piece);
            proof {
                assert(out@ =~= old(out)@ + seq!['"'] + esc(f@.take(k + 1)));
            }
        }
        k = k + 1;
    }
    out.append("\"");
    proof {
        assert(f@.take(n as int) =~= f@);
        assert(out@ =~= old(out)@ + enc_field(f@));
    }
}

proof fn lemma_enc_fields_push(fs: Seq<Seq<char>>, f: Seq<char>)
    requires
        fs.len() >= 1,
    ensures
        enc_fields(fs.push(f)) == enc_fields(fs) + seq![','] + enc_field(f),
    decreases fs.len(),
{
    let p = fs.push(f);
    if fs.len() == 1 {
        assert(p.len() == 2);
        assert(p.skip(1) =~~= seq![f]);
        assert(enc_fields(seq![f]) == enc_field(f));
        assert(p[0] == fs[0]);
        assert(enc_fields(p) =~= enc_field(fs[0]) + seq![','] + enc_field(f));
        assert(enc_fields(fs) == enc_field(fs[0]));
    } else {
        lemma_enc_fields_push(fs.skip(1), f);
        assert(p.skip(1) =~~= fs.skip(1).push(f));
        assert(p[0] == fs[0]);
        assert(enc_fields(p) == enc_field(fs[0]) + seq![','] + enc_fields(fs.skip(1).push(f)));
        assert(enc_field(fs[0]) + seq![','] + (enc_fields(fs.skip(1)) + seq![','] + enc_field(f))
            =~= (enc_field(fs[0]) + seq![','] + enc_fields(fs.skip(1))) + seq![','] + enc_field(f));
    }
}

fn append_record(out: &mut String, r: &Vec<String>)
    ensures
        final(out)@ == old(out)@ + enc_record(r.deep_view()),
{
    proof {
        reveal_strlit(",");
        reveal_strlit("\n");
    }
    let m = r.len();
    let ghost dv = r.deep_view();
    let mut k: usize = 0;
    while k < m
        invariant
            m == r.len(),
            dv == r.deep_view(),
            k <= m,
            k == 0 ==> out@ == old(out)@,
            k >= 1 ==> out@ == old(out)@ + enc_fields(dv.take(k as int)),
        decreases m - k,
    {
        proof {
            assert(dv.take(k + 1) =~~= dv.take(k as int).push(dv[k as int]));
            assert(dv[k as int] == r@[k as int]@);
            if k >= 1 {
                lemma_enc_fields_push(dv.take(k as int), dv[k as int]);
            } else {
                assert(dv.take(1) =~~= seq![dv[0]]);
                assert(enc_fields(seq![dv[0]]) == enc_field(dv[0]));
            }
        }
        if k > 0 {
            proof {
                reveal_strlit(",");
            }
            out.append(",");
            proof {
                assert(","@ =~= seq![',']);
            }
        }
        append_field(out, r[k].as_str());
        proof {
            assert(out@ =~= old(out)@ + enc_fields(dv.take(k + 1)));
        }
        k = k + 1;
    }
    out.append("\n");
    proof {
        assert("\n"@ =~= seq!['\n']);
        if m == 0 {
            assert(dv.take(0) =~~= Seq::<Seq<char>>::empty());
            assert(enc_fields(Seq::<Seq<char>>::empty()) == Seq::<char>::empty());
            assert(out@ =~= old(out)@ + enc_record(dv));
        } else {
            assert(dv.take(m as int) =~~= dv);
            assert(out@ =~= old(out)@ + enc_record(dv));
        }
    }
}

proof fn lemma_enc_table_push(rs: Seq<Seq<Seq<char>>>, r: Seq<Seq<char>>)
    ensures
        enc_table(rs.push(r)) == enc_table(rs) + enc_record(r),
    decreases rs.len(),
{
    let p = rs.push(r);
    if rs.len() == 0 {
        assert(p.skip(1) =~~= Seq::<Seq<Seq<char>>>::empty());
        assert(p[0] == r);
        assert(enc_table(p) == enc_record(p[0]) + enc_table(p.skip(1)));
        assert(enc_table(Seq::<Seq<Seq<char>>>::empty()) == Seq::<char>::empty());
        assert(enc_table(p) =~= enc_record(r) + Seq::<char>::empty());
        assert(enc_table(rs) + enc_record(r) =~= enc_record(r));
    } else {
        lemma_enc_table_push(rs.skip(1), r);
        assert(p.skip(1) =~~= rs.skip(1).push(r));
        assert(p[0] == rs[0]);
        assert(enc_table(p) == enc_record(rs[0]) + (enc_table(rs.skip(1)) + enc_record(r)));
        assert(enc_record(rs[0]) + (enc_table(rs.skip(1)) + enc_record(r))
            =~= (enc_record(rs[0]) + enc_table(rs.skip(1))) + enc_record(r));
    }
}

/// Writes a table as text; reading it back gives the records again
/// ([`lemma_table_round_trip`]).
pub fn encode_table(rs: &Vec<Vec<String>>) -> (out: String)
    ensures
        out@ == enc_table(rs.deep_view()),
{
    let ghost dv = rs.deep_view();
    let mut out = String::new();
    proof {
        assert(dv.take(0) =~~= Seq::<Seq<Seq<char>>>::empty());
        assert(out@ =~= enc_table(dv.take(0)));
    }
    let n = rs.len();
    let mut i: usize = 0;
    while i < n
        invariant
            n == rs.len(),
            dv == rs.deep_view(),
            i <= n,
            out@ == enc_table(dv.take(i as int)),
        decreases n - i,
    {
        proof {
            assert(dv.take(i + 1) =~~= dv.take(i as int).push(dv[i as int]));
            lemma_enc_table_push(dv.take(i as int), dv[i as int]);
            assert(dv[i as int] == rs@[i as int].deep_view());
        }
        append_record(&mut out, &rs[i]);
        i = i + 1;
    }
    proof {
        assert(dv.take(n as int) =~~= dv);
    }
    out
}

} // verus!
