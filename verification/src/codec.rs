//! The record codec: one key-value entry to and from one line of text.
//!
//! A record is `KEY<TAB>VALUE` terminated by a newline.  A key may not
//! contain a tab or a newline; a value may contain tabs (decoding splits at
//! the first tab only) but no newline.  A line without a tab is malformed.

use vstd::prelude::*;

verus! {

/// Index of the first occurrence of `c` in `s`, or -1 when `c` does not occur.
pub open spec fn find_char(s: Seq<char>, c: char) -> int
    decreases s.len(),
{
    if s.len() == 0 {
        -1
    } else if s[0] == c {
        0
    } else {
        let rest = find_char(s.drop_first(), c);
        if rest < 0 {
            -1
        } else {
            rest + 1
        }
    }
}

/// `c` occurs somewhere in `s`.
pub open spec fn has_char(s: Seq<char>, c: char) -> bool {
    find_char(s, c) >= 0
}

/// `find_char` returns either the least index holding `c`, or -1 when no
/// index holds `c`.
pub proof fn lemma_find_char_spec(s: Seq<char>, c: char)
    ensures
        find_char(s, c) >= 0 ==> {
            &&& find_char(s, c) < s.len()
            &&& s[find_char(s, c)] == c
            &&& forall|j: int| 0 <= j < find_char(s, c) ==> s[j] != c
        },
        find_char(s, c) < 0 ==> forall|j: int| 0 <= j < s.len() ==> s[j] != c,
    decreases s.len(),
{
    if s.len() > 0 && s[0] != c {
        lemma_find_char_spec(s.drop_first(), c);
        if find_char(s.drop_first(), c) >= 0 {
            assert forall|j: int| 0 <= j < find_char(s, c) implies s[j] != c by {
                if j > 0 {
                    assert(s.drop_first()[j - 1] == s[j]);
                }
            }
        } else {
            assert forall|j: int| 0 <= j < s.len() implies s[j] != c by {
                if j > 0 {
                    assert(s.drop_first()[j - 1] == s[j]);
                }
            }
        }
    }
}

/// An index that holds `c` and is preceded by no occurrence of `c` is what
/// `find_char` returns.
pub proof fn lemma_find_char_at(s: Seq<char>, c: char, i: int)
    requires
        0 <= i < s.len(),
        s[i] == c,
        forall|j: int| 0 <= j < i ==> s[j] != c,
    ensures
        find_char(s, c) == i,
    decreases s.len(),
{
    if i > 0 {
        assert(s[0] != c);
        assert(forall|j: int| 0 <= j < s.drop_first().len() ==> s.drop_first()[j] == s[j + 1]);
        lemma_find_char_at(s.drop_first(), c, i - 1);
    }
}

/// A sequence in which no index holds `c` makes `find_char` return -1.
pub proof fn lemma_find_char_absent(s: Seq<char>, c: char)
    requires
        forall|j: int| 0 <= j < s.len() ==> s[j] != c,
    ensures
        find_char(s, c) == -1,
{
    lemma_find_char_spec(s, c);
    if find_char(s, c) >= 0 {
        assert(s[find_char(s, c)] == c);
    }
}

/// Position of the first occurrence of `c` in `s`, if any.
pub fn find_char_in(s: &str, c: char) -> (r: Option<usize>)
    ensures
        match r {
            Some(i) => find_char(s@, c) == i,
            None => find_char(s@, c) == -1,
        },
{
    let n: usize = s.unicode_len();
    let mut i: usize = 0;
    while i < n
        invariant
            n == s@.len(),
            0 <= i <= n,
            forall|j: int| 0 <= j < i ==> s@[j] != c,
        decreases n - i,
    {
        if s.get_char(i) == c {
            proof {
                lemma_find_char_at(s@, c, i as int);
            }
            return Some(i);
        }
        i = i + 1;
    }
    proof {
        lemma_find_char_absent(s@, c);
    }
    None
}

/// A key is storable when it holds neither a tab nor a newline.
pub open spec fn valid_key(k: Seq<char>) -> bool {
    !has_char(k, '\t') && !has_char(k, '\n')
}

/// A value is storable when it holds no newline; tabs are allowed, since
/// decoding splits at the first tab only.
pub open spec fn valid_value(v: Seq<char>) -> bool {
    !has_char(v, '\n')
}

/// The encoded form of one entry: key, tab, value.
pub open spec fn encode_line(k: Seq<char>, v: Seq<char>) -> Seq<char> {
    k + seq!['\t'] + v
}

/// The decoded form of one line: the text before the first tab is the key,
/// the text after it is the value.  A line without a tab is malformed.
pub open spec fn decode_line(s: Seq<char>) -> Option<(Seq<char>, Seq<char>)> {
    let i = find_char(s, '\t');
    if i < 0 {
        None
    } else {
        Some((s.subrange(0, i), s.subrange(i + 1, s.len() as int)))
    }
}

/// Encode one entry as one line (without its terminating newline).
pub fn encode(key: &str, value: &str) -> (r: String)
    ensures
        r@ == encode_line(key@, value@),
{
    let mut out = String::new();
    out.append(key);
    out.append("\t");
    out.append(value);
    proof {
        reveal_strlit("\t");
        assert(("\t")@ =~= seq!['\t']);
        assert(out@ =~= encode_line(key@, value@));
    }
    out
}

/// Decode one line into its entry, or nothing when the line has no tab.
pub fn decode(line: &str) -> (r: Option<(String, String)>)
    ensures
        match r {
            Some(kv) => decode_line(line@) == Some((kv.0@, kv.1@)),
            None => decode_line(line@) is None,
        },
{
    match find_char_in(line, '\t') {
        None => None,
        Some(i) => {
            proof {
                lemma_find_char_spec(line@, '\t');
            }
            let n: usize = line.unicode_len();
            let key = line.substring_char(0, i).to_owned();
            let value = line.substring_char(i + 1, n).to_owned();
            Some((key, value))
        },
    }
}

/// The lines of a text: the segments between newline characters.  Text
/// after the last newline, when non-empty, forms a final line of its own,
/// so contents without a terminating newline still split.
pub open spec fn split_lines(s: Seq<char>) -> Seq<Seq<char>>
    decreases s.len(),
    via split_lines_decreases
{
    if s.len() == 0 {
        Seq::empty()
    } else {
        let i = find_char(s, '\n');
        if i < 0 {
            seq![s]
        } else {
            seq![s.subrange(0, i)] + split_lines(s.subrange(i + 1, s.len() as int))
        }
    }
}

#[via_fn]
proof fn split_lines_decreases(s: Seq<char>) {
    lemma_find_char_spec(s, '\n');
}

/// Decode every line in order; a single malformed line fails the whole
/// parse.
pub open spec fn parse_lines(lines: Seq<Seq<char>>) -> Option<Seq<(Seq<char>, Seq<char>)>>
    decreases lines.len(),
{
    if lines.len() == 0 {
        Some(Seq::empty())
    } else {
        match decode_line(lines[0]) {
            None => None,
            Some(e) => match parse_lines(lines.drop_first()) {
                None => None,
                Some(rest) => Some(seq![e] + rest),
            },
        }
    }
}

/// What a backing file's whole contents denote: the entries of its lines,
/// in file order, or nothing when any line is malformed.
pub open spec fn parse_contents(s: Seq<char>) -> Option<Seq<(Seq<char>, Seq<char>)>> {
    parse_lines(split_lines(s))
}

/// The serialized form of a sequence of entries: one line per entry, each
/// terminated by a newline.
pub open spec fn render_entries(es: Seq<(Seq<char>, Seq<char>)>) -> Seq<char>
    decreases es.len(),
{
    if es.len() == 0 {
        Seq::empty()
    } else {
        encode_line(es[0].0, es[0].1) + seq!['\n'] + render_entries(es.drop_first())
    }
}

/// Rendering distributes over concatenation of entry sequences.
pub proof fn lemma_render_concat(a: Seq<(Seq<char>, Seq<char>)>, b: Seq<(Seq<char>, Seq<char>)>)
    ensures
        render_entries(a + b) == render_entries(a) + render_entries(b),
    decreases a.len(),
{
    if a.len() == 0 {
        assert(a + b =~= b);
        assert(render_entries(a) + render_entries(b) =~= render_entries(b));
    } else {
        assert((a + b).drop_first() =~= a.drop_first() + b);
        lemma_render_concat(a.drop_first(), b);
        assert(render_entries(a + b) =~= render_entries(a) + render_entries(b));
    }
}

/// Split a text into its lines.
pub fn split_lines_text(s: &str) -> (r: Vec<String>)
    ensures
        r@.map_values(|l: String| l@) == split_lines(s@),
{
    let mut out: Vec<String> = Vec::new();
    let mut rest: String = s.to_owned();
    while rest.unicode_len() != 0
        invariant
            split_lines(s@) == out@.map_values(|l: String| l@) + split_lines(rest@),
        decreases rest@.len(),
    {
        let n: usize = rest.unicode_len();
        match find_char_in(rest.as_str(), '\n') {
            Some(i) => {
                proof {
                    lemma_find_char_spec(rest@, '\n');
                }
                let line: String = rest.as_str().substring_char(0, i).to_owned();
                let tail: String = rest.as_str().substring_char(i + 1, n).to_owned();
                proof {
                    assert(split_lines(rest@) == seq![line@] + split_lines(tail@));
                    assert((out@.push(line)).map_values(|l: String| l@) =~= out@.map_values(
                        |l: String| l@,
                    ).push(line@));
                    assert(out@.map_values(|l: String| l@).push(line@) + split_lines(tail@)
                        =~= out@.map_values(|l: String| l@) + split_lines(rest@));
                }
                out.push(line);
                rest = tail;
            },
            None => {
                proof {
                    assert(split_lines(rest@) == seq![rest@]);
                    assert((out@.push(rest)).map_values(|l: String| l@) =~= out@.map_values(
                        |l: String| l@,
                    ).push(rest@));
                    assert(out@.map_values(|l: String| l@).push(rest@) + split_lines(
                        Seq::<char>::empty(),
                    ) =~= out@.map_values(|l: String| l@) + split_lines(rest@));
                }
                out.push(rest);
                rest = String::new();
                assert(rest@ =~= Seq::<char>::empty());
            },
        }
    }
    proof {
        assert(split_lines(rest@) =~= Seq::<Seq<char>>::empty());
        assert(out@.map_values(|l: String| l@) + Seq::<Seq<char>>::empty() =~= out@.map_values(
            |l: String| l@,
        ));
    }
    out
}

/// Decoding the encoded form of an entry with a tab-free key gives the
/// entry back: the first tab of the line is exactly the separator.
pub proof fn lemma_decode_encode(k: Seq<char>, v: Seq<char>)
    requires
        !has_char(k, '\t'),
    ensures
        decode_line(encode_line(k, v)) == Some((k, v)),
{
    let line = encode_line(k, v);
    lemma_find_char_spec(k, '\t');
    assert forall|j: int| 0 <= j < k.len() implies line[j] != '\t' by {
        assert(line[j] == k[j]);
    }
    lemma_find_char_at(line, '\t', k.len() as int);
    assert(line.subrange(0, k.len() as int) =~= k);
    assert(line.subrange(k.len() as int + 1, line.len() as int) =~= v);
}

/// Splitting a newline-free line, a newline, and a remainder yields that
/// line followed by the lines of the remainder.
pub proof fn lemma_split_prepend(line: Seq<char>, rest: Seq<char>)
    requires
        !has_char(line, '\n'),
    ensures
        split_lines(line + seq!['\n'] + rest) == seq![line] + split_lines(rest),
{
    let s = line + seq!['\n'] + rest;
    lemma_find_char_spec(line, '\n');
    assert forall|j: int| 0 <= j < line.len() implies s[j] != '\n' by {
        assert(s[j] == line[j]);
    }
    assert(s[line.len() as int] == '\n');
    lemma_find_char_at(s, '\n', line.len() as int);
    assert(s.subrange(0, line.len() as int) =~= line);
    assert(s.subrange(line.len() as int + 1, s.len() as int) =~= rest);
}

/// Appending one more line to a parse: the parse of the longer sequence
/// succeeds exactly when the parse so far and the new line's decoding both
/// succeed, and then carries the decoded entry at the end.
pub proof fn lemma_parse_push(lines: Seq<Seq<char>>, l: Seq<char>)
    ensures
        parse_lines(lines.push(l)) == (match (parse_lines(lines), decode_line(l)) {
            (Some(es), Some(e)) => Some(es.push(e)),
            _ => None::<Seq<(Seq<char>, Seq<char>)>>,
        }),
    decreases lines.len(),
{
    if lines.len() == 0 {
        assert(lines.push(l).len() == 1);
        assert(lines.push(l)[0] == l);
        assert(lines.push(l).drop_first() =~= Seq::<Seq<char>>::empty());
        assert(parse_lines(lines) == Some(Seq::<(Seq<char>, Seq<char>)>::empty()));
        if decode_line(l) is Some {
            let e = decode_line(l)->Some_0;
            assert(parse_lines(lines.push(l).drop_first()) == Some(Seq::<(
                Seq<char>,
                Seq<char>,
            )>::empty()));
            assert(parse_lines(lines.push(l)) == Some(
                seq![e] + Seq::<(Seq<char>, Seq<char>)>::empty(),
            ));
            assert(seq![e] + Seq::<(Seq<char>, Seq<char>)>::empty() =~= Seq::<(
                Seq<char>,
                Seq<char>,
            )>::empty().push(e));
        } else {
            assert(parse_lines(lines.push(l)) is None);
        }
    } else {
        assert(lines.push(l)[0] == lines[0]);
        assert(lines.push(l).drop_first() =~= lines.drop_first().push(l));
        lemma_parse_push(lines.drop_first(), l);
        if decode_line(lines[0]) is Some && parse_lines(lines.drop_first()) is Some
            && decode_line(l) is Some {
            let e0 = decode_line(lines[0])->Some_0;
            let rest = parse_lines(lines.drop_first())->Some_0;
            let e = decode_line(l)->Some_0;
            assert(seq![e0] + rest.push(e) =~= (seq![e0] + rest).push(e));
        }
    }
}

/// Round trip: rendering entries whose keys are free of tabs and newlines
/// and whose values are free of newlines, then parsing the rendered text,
/// gives the same entries back.
pub proof fn lemma_round_trip(es: Seq<(Seq<char>, Seq<char>)>)
    requires
        forall|i: int| 0 <= i < es.len() ==> valid_key(#[trigger] es[i].0) && valid_value(es[i].1),
    ensures
        parse_contents(render_entries(es)) == Some(es),
    decreases es.len(),
{
    if es.len() == 0 {
        assert(split_lines(render_entries(es)) =~= Seq::<Seq<char>>::empty());
    } else {
        let k = es[0].0;
        let v = es[0].1;
        let line = encode_line(k, v);
        lemma_find_char_spec(k, '\t');
        lemma_find_char_spec(k, '\n');
        lemma_find_char_spec(v, '\n');
        assert forall|j: int| 0 <= j < line.len() implies line[j] != '\n' by {
            if j < k.len() {
                assert(line[j] == k[j]);
            } else if j == k.len() {
                assert(line[j] == '\t');
            } else {
                assert(line[j] == v[j - k.len() - 1]);
            }
        }
        lemma_find_char_absent(line, '\n');
        lemma_split_prepend(line, render_entries(es.drop_first()));
        assert(render_entries(es) == line + seq!['\n'] + render_entries(es.drop_first()));
        lemma_decode_encode(k, v);
        lemma_round_trip(es.drop_first());
        let tail_lines = split_lines(render_entries(es.drop_first()));
        assert((seq![line] + tail_lines)[0] == line);
        assert((seq![line] + tail_lines).drop_first() =~= tail_lines);
        assert((k, v) == es[0]);
        assert(seq![es[0]] + es.drop_first() =~= es);
    }
}

/// A parse fails exactly when some line holds no tab separator.
pub proof fn lemma_parse_none_iff_malformed(lines: Seq<Seq<char>>)
    ensures
        parse_lines(lines) is None <==> exists|i: int|
            0 <= i < lines.len() && decode_line(#[trigger] lines[i]) is None,
    decreases lines.len(),
{
    if lines.len() > 0 {
        lemma_parse_none_iff_malformed(lines.drop_first());
        if parse_lines(lines) is None {
            if decode_line(lines[0]) is None {
                assert(decode_line(lines[0]) is None);
            } else {
                let i = choose|i: int|
                    0 <= i < lines.drop_first().len() && decode_line(
                        #[trigger] lines.drop_first()[i],
                    ) is None;
                assert(lines[i + 1] == lines.drop_first()[i]);
            }
        }
        if exists|i: int| 0 <= i < lines.len() && decode_line(#[trigger] lines[i]) is None {
            let i = choose|i: int| 0 <= i < lines.len() && decode_line(#[trigger] lines[i]) is None;
            if i > 0 {
                assert(lines.drop_first()[i - 1] == lines[i]);
            }
        }
    }
}

} // verus!
