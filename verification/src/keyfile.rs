//! The public key file of the genesis tool: one line per validator, its
//! consensus public key, its VRF public key (both encoded as strings) and
//! its voting power, separated by commas.
use vstd::prelude::*;
use crate::text::{
    append_chars, chars_of, lemma_decimal, parse_u64, spec_decimal, spec_parse_u64, spec_split,
    split, string_of, push_decimal, is_digit, digits_value, parse_body, all_digits,
    lemma_split_concat, lemma_split_none,
};

verus! {

/// One line of the public key file.
#[derive(Clone, Debug, PartialEq, Eq)]
pub struct KeyEntry {
    pub public_key: String,
    pub vrf_public_key: String,
    pub voting_power: u64,
}

/// An entry as plain values.
pub type SpecKeyEntry = (Seq<char>, Seq<char>, u64);

impl View for KeyEntry {
    type V = SpecKeyEntry;

    open spec fn view(&self) -> SpecKeyEntry {
        (self.public_key@, self.vrf_public_key@, self.voting_power)
    }
}

/// The entries as plain values.
pub open spec fn entries_view(v: Seq<KeyEntry>) -> Seq<SpecKeyEntry> {
    v.map_values(|e: KeyEntry| e@)
}

/// The line written for a validator, with its line ending.
pub open spec fn spec_key_line(public_key: Seq<char>, vrf_public_key: Seq<char>, voting_power: u64) -> Seq<
    char,
> {
    public_key + seq![','] + vrf_public_key + seq![','] + spec_decimal(voting_power as nat) + seq![
        '\n',
    ]
}

/// The file written for a list of validators.
pub open spec fn spec_key_file(entries: Seq<SpecKeyEntry>) -> Seq<char>
    decreases entries.len(),
{
    if entries.len() == 0 {
        Seq::empty()
    } else {
        spec_key_file(entries.drop_last()) + spec_key_line(
            entries.last().0,
            entries.last().1,
            entries.last().2,
        )
    }
}

/// Reads a line: the first two comma-separated fields are the keys and the
/// third the voting power, a `u64` as `str::parse` reads it; further fields
/// are ignored. `None` where there are fewer than three fields or the third
/// is no `u64`.
pub open spec fn spec_parse_key_line(line: Seq<char>) -> Option<SpecKeyEntry> {
    let f = spec_split(line, ',');
    if f.len() < 3 {
        None
    } else {
        match spec_parse_u64(f[2]) {
            Some(p) => Some((f[0], f[1], p)),
            None => None,
        }
    }
}

/// A line without the carriage return that ends it, if one does.
pub open spec fn strip_cr(s: Seq<char>) -> Seq<char> {
    if s.len() > 0 && s.last() == '\r' {
        s.drop_last()
    } else {
        s
    }
}

/// The lines of a text, as `str::lines` gives them: split at `\n`, a
/// carriage return before the `\n` removed, and no empty line after a
/// final `\n`.
pub open spec fn spec_lines(s: Seq<char>) -> Seq<Seq<char>> {
    let p = spec_split(s, '\n');
    let n: int = if p.last().len() == 0 {
        p.len() - 1
    } else {
        p.len() as int
    };
    Seq::new(
        n as nat,
        |i: int|
            if i < p.len() - 1 {
                strip_cr(p[i])
            } else {
                p[i]
            },
    )
}

/// Reads a public key file: `None` where a line cannot be read.
pub open spec fn spec_parse_key_file(s: Seq<char>) -> Option<Seq<SpecKeyEntry>> {
    let ls = spec_lines(s);
    if forall|i: int| 0 <= i < ls.len() ==> (#[trigger] spec_parse_key_line(ls[i])) is Some {
        Some(Seq::new(ls.len(), |i: int| spec_parse_key_line(ls[i])->0))
    } else {
        None
    }
}

/// The line written for a validator.
pub fn key_line(public_key: &str, vrf_public_key: &str, voting_power: u64) -> (r: String)
    ensures
        r@ == spec_key_line(public_key@, vrf_public_key@, voting_power),
{
    let mut out: Vec<char> = Vec::new();
    let pk = chars_of(public_key);
    let vrf = chars_of(vrf_public_key);
    append_chars(&mut out, pk.as_slice());
    out.push(',');
    append_chars(&mut out, vrf.as_slice());
    out.push(',');
    push_decimal(voting_power, &mut out);
    out.push('\n');
    proof {
        assert(out@ =~= spec_key_line(public_key@, vrf_public_key@, voting_power));
    }
    string_of(out.as_slice())
}

fn parse_key_chars(line: &[char]) -> (r: Option<KeyEntry>)
    ensures
        spec_parse_key_line(line@) == match r {
            Some(e) => Some(e@),
            None => None::<SpecKeyEntry>,
        },
{
    let fields = split(line, ',');
    if fields.len() < 3 {
        return None;
    }
    match parse_u64(fields[2].as_slice()) {
        Some(p) => Some(
            KeyEntry {
                public_key: string_of(fields[0].as_slice()),
                vrf_public_key: string_of(fields[1].as_slice()),
                voting_power: p,
            },
        ),
        None => None,
    }
}

/// Reads one line of the public key file (without its line ending).
pub fn parse_key_line(line: &str) -> (r: Option<KeyEntry>)
    ensures
        spec_parse_key_line(line@) == match r {
            Some(e) => Some(e@),
            None => None::<SpecKeyEntry>,
        },
{
    let chars = chars_of(line);
    parse_key_chars(chars.as_slice())
}

/// Reads the public key file, line by line.
pub fn parse_key_file(contents: &str) -> (r: Option<Vec<KeyEntry>>)
    ensures
        spec_parse_key_file(contents@) == match r {
            Some(v) => Some(entries_view(v@)),
            None => None::<Seq<SpecKeyEntry>>,
        },
{
    let chars = chars_of(contents);
    let pieces = split(chars.as_slice(), '\n');
    let ghost p = spec_split(contents@, '\n');
    let ghost ls = spec_lines(contents@);
    proof {
        crate::text::lemma_split_len(contents@, '\n');
    }
    let n = pieces.len();
    let count: usize = if pieces[n - 1].len() == 0 {
        n - 1
    } else {
        n
    };
    assert(count == ls.len());
    let mut out: Vec<KeyEntry> = Vec::new();
    let mut i: usize = 0;
    while i < count
        invariant
            i <= count,
            count == ls.len(),
            n == p.len(),
            n >= 1,
            pieces@.len() == n,
            forall|j: int| 0 <= j < n ==> (#[trigger] pieces@[j])@ == p[j],
            ls == spec_lines(contents@),
            p == spec_split(contents@, '\n'),
            out@.len() == i,
            forall|j: int|
                0 <= j < i ==> spec_parse_key_line(ls[j]) == Some((#[trigger] out@[j])@),
        decreases count - i,
    {
        let mut line: Vec<char> = Vec::new();
        append_chars(&mut line, pieces[i].as_slice());
        if i < n - 1 && line.len() > 0 && line[line.len() - 1] == '\r' {
            line.pop();
        }
        proof {
            assert(line@ == ls[i as int]);
        }
        match parse_key_chars(line.as_slice()) {
            Some(e) => {
                out.push(e);
            },
            None => {
                proof {
                    assert(spec_parse_key_line(ls[i as int]) is None);
                }
                return None;
            },
        }
        i = i + 1;
    }
    proof {
        let ev = entries_view(out@);
        assert forall|j: int| 0 <= j < ls.len() implies (#[trigger] spec_parse_key_line(ls[j])) is Some by {
            assert(spec_parse_key_line(ls[j]) == Some(out@[j]@));
        }
        assert(ev =~= Seq::new(ls.len(), |j: int| spec_parse_key_line(ls[j])->0));
    }
    Some(out)
}

/// A field without commas.
pub open spec fn comma_free(s: Seq<char>) -> bool {
    forall|i: int| 0 <= i < s.len() ==> s[i] != ',' && s[i] != '\n'
}

proof fn lemma_decimal_plain(p: u64)
    ensures
        comma_free(spec_decimal(p as nat)),
        spec_parse_u64(spec_decimal(p as nat)) == Some(p),
        spec_decimal(p as nat).len() > 0,
        spec_decimal(p as nat).last() != '\r',
{
    lemma_decimal(p as nat);
    let d = spec_decimal(p as nat);
    assert forall|i: int| 0 <= i < d.len() implies d[i] != ',' && d[i] != '\n' by {
        assert(is_digit(d[i]));
    }
    assert(is_digit(d[0]));
    assert(parse_body(d) == d);
    assert(all_digits(d));
    assert(digits_value(d) == p);
    assert(is_digit(d[d.len() - 1]));
}

/// A line written for a validator reads back as that validator's keys and
/// voting power, where the keys hold no comma and no line feed.
pub proof fn lemma_key_line_roundtrip(public_key: Seq<char>, vrf_public_key: Seq<char>, voting_power: u64)
    requires
        comma_free(public_key),
        comma_free(vrf_public_key),
    ensures
        spec_parse_key_line(spec_key_line(public_key, vrf_public_key, voting_power).drop_last())
            == Some((public_key, vrf_public_key, voting_power)),
{
    let d = spec_decimal(voting_power as nat);
    lemma_decimal_plain(voting_power);
    let body = spec_key_line(public_key, vrf_public_key, voting_power).drop_last();
    assert(body =~= public_key + seq![','] + (vrf_public_key + seq![','] + d));
    lemma_split_concat(public_key, vrf_public_key + seq![','] + d, ',');
    lemma_split_concat(vrf_public_key, d, ',');
    lemma_split_none(public_key, ',');
    lemma_split_none(vrf_public_key, ',');
    lemma_split_none(d, ',');
    let f = spec_split(body, ',');
    assert(f =~= seq![public_key, vrf_public_key, d]);
}


/// The lines of the file written for a list of validators, without line
/// endings.
pub open spec fn key_bodies(entries: Seq<SpecKeyEntry>) -> Seq<Seq<char>> {
    Seq::new(
        entries.len(),
        |i: int| spec_key_line(entries[i].0, entries[i].1, entries[i].2).drop_last(),
    )
}

proof fn lemma_split_key_file(entries: Seq<SpecKeyEntry>, t: Seq<char>)
    requires
        forall|i: int|
            0 <= i < entries.len() ==> comma_free((#[trigger] entries[i]).0) && comma_free(
                entries[i].1,
            ),
        forall|i: int| 0 <= i < t.len() ==> t[i] != '\n',
    ensures
        spec_split(spec_key_file(entries) + t, '\n') =~= key_bodies(entries).push(t),
    decreases entries.len(),
{
    if entries.len() == 0 {
        assert(spec_key_file(entries) + t =~= t);
        lemma_split_none(t, '\n');
    } else {
        let init = entries.drop_last();
        let e = entries.last();
        assert(e == entries[entries.len() - 1]);
        let body = spec_key_line(e.0, e.1, e.2).drop_last();
        lemma_decimal_plain(e.2);
        assert forall|i: int| 0 <= i < body.len() implies body[i] != '\n' by {
            let d = spec_decimal(e.2 as nat);
            if i < e.0.len() {
                assert(body[i] == e.0[i]);
            } else if i == e.0.len() {
            } else if i < e.0.len() + 1 + e.1.len() {
                assert(body[i] == e.1[i - e.0.len() - 1]);
            } else if i == e.0.len() + 1 + e.1.len() {
            } else {
                assert(body[i] == d[i - e.0.len() - 2 - e.1.len()]);
            }
        }
        assert forall|i: int| 0 <= i < init.len() implies comma_free((#[trigger] init[i]).0)
            && comma_free(init[i].1) by {
            assert(init[i] == entries[i]);
        }
        lemma_split_key_file(init, body);
        assert(spec_key_line(e.0, e.1, e.2) =~= body.push('\n'));
        assert(spec_key_file(entries) + t =~= (spec_key_file(init) + body) + seq!['\n'] + t);
        lemma_split_concat(spec_key_file(init) + body, t, '\n');
        lemma_split_none(t, '\n');
        assert(key_bodies(init).push(body) =~= key_bodies(entries));
    }
}

/// The file written for a list of validators reads back as that list,
/// where no key holds a comma or a line feed.
pub proof fn lemma_key_file_roundtrip(entries: Seq<SpecKeyEntry>)
    requires
        forall|i: int|
            0 <= i < entries.len() ==> comma_free((#[trigger] entries[i]).0) && comma_free(
                entries[i].1,
            ),
    ensures
        spec_parse_key_file(spec_key_file(entries)) == Some(entries),
{
    let s = spec_key_file(entries);
    lemma_split_key_file(entries, Seq::empty());
    assert(s + Seq::<char>::empty() =~= s);
    let p = spec_split(s, '\n');
    let ls = spec_lines(s);
    assert(ls.len() == entries.len());
    assert forall|i: int| 0 <= i < ls.len() implies spec_parse_key_line(#[trigger] ls[i]) == Some(
        entries[i],
    ) by {
        let e = entries[i];
        lemma_decimal_plain(e.2);
        let line = spec_key_line(e.0, e.1, e.2);
        assert(line.drop_last().last() == spec_decimal(e.2 as nat).last());
        assert(ls[i] == line.drop_last());
        lemma_key_line_roundtrip(e.0, e.1, e.2);
    }
    assert(Seq::new(ls.len(), |i: int| spec_parse_key_line(ls[i])->0) =~= entries);
}

} // verus!
