//! The label table: which text stands for which hashed name, how a name is
//! written with it, and how a written name is read.

use vstd::prelude::*;
use std::collections::HashMap;
use crate::error::Error;
use crate::hash::{hash40, hash40_of, Hash40};
use crate::hex::{
    hex_chars, hex_digits, hex_literal, lemma_digits_value_of_hex_digits, parse_hex, parse_hex_from,
};
use crate::strings::{chars_of, split_lines, string_from, trim, trim_bounds};

verus! {

/// A table from hashed names to the labels they are shown as. It only ever
/// serves to write names as text; no byte of a container depends on it.
#[derive(Debug)]
pub struct LabelRegistry {
    map: HashMap<u64, String>,
}

impl View for LabelRegistry {
    type V = Map<u64, Seq<char>>;

    closed spec fn view(&self) -> Map<u64, Seq<char>> {
        Map::new(|name: u64| self.map@.contains_key(name), |name: u64| self.map@[name]@)
    }
}

/// `table` after one line of a label file: a blank line changes nothing, any
/// other line becomes, as it stands, the label of the hash of its trimmed text.
pub open spec fn add_label(table: Map<u64, Seq<char>>, line: Seq<char>) -> Map<u64, Seq<char>> {
    if trim(line).len() == 0 {
        table
    } else {
        table.insert(hash40_of(trim(line)), line)
    }
}

/// The table that `lines` make, taken first to last, so that of two lines
/// with one hash the later one stays.
pub open spec fn labels_of_lines(lines: Seq<Seq<char>>) -> Map<u64, Seq<char>>
    decreases lines.len(),
{
    if lines.len() == 0 {
        Map::empty()
    } else {
        add_label(labels_of_lines(lines.drop_last()), lines.last())
    }
}

/// The table that a label file of this content makes.
pub open spec fn spec_set_labels(contents: Seq<char>) -> Map<u64, Seq<char>> {
    labels_of_lines(split_lines(contents))
}

/// How `name` is written with `table`: as its label where the table has one,
/// else as a literal.
pub open spec fn resolve(table: Map<u64, Seq<char>>, name: u64) -> Seq<char> {
    if table.contains_key(name) {
        table[name]
    } else {
        hex_literal(name)
    }
}

/// `s` without the `0x` it begins with, however often that is repeated.
pub open spec fn strip_hex_prefix(s: Seq<char>) -> Seq<char>
    decreases s.len(),
{
    if s.len() >= 2 && s[0] == '0' && s[1] == 'x' {
        strip_hex_prefix(s.skip(2))
    } else {
        s
    }
}

/// The name that a text stands for. A text that begins with `0x` is a
/// literal and must spell a 64-bit number; any other text is a label and
/// stands for its hash.
pub open spec fn spec_deserialize(s: Seq<char>) -> Result<u64, Error> {
    if s.len() >= 2 && s[0] == '0' && s[1] == 'x' {
        match parse_hex(strip_hex_prefix(s)) {
            Some(name) => Ok(name),
            None => Err(Error::TextParseError),
        }
    } else {
        Ok(hash40_of(s))
    }
}

impl LabelRegistry {
    /// The table without a label.
    pub fn new() -> (labels: Self)
        ensures
            labels@ == Map::<u64, Seq<char>>::empty(),
    {
        let labels = LabelRegistry { map: HashMap::new() };
        assert(labels@ =~= Map::<u64, Seq<char>>::empty());
        labels
    }

    /// Takes up the line `chars[from..to]` of a label file.
    fn add_line(&mut self, chars: &Vec<char>, from: usize, to: usize)
        requires
            from <= to <= chars@.len(),
        ensures
            final(self)@ == add_label(old(self)@, chars@.subrange(from as int, to as int)),
    {
        let (a, b) = trim_bounds(chars, from, to);
        if a < b {
            let trimmed: String = string_from(chars, a, b);
            let name: u64 = hash40(trimmed.as_str());
            let line: String = string_from(chars, from, to);
            self.map.insert(name, line);
            assert(self@ =~= add_label(old(self)@, chars@.subrange(from as int, to as int)));
        }
    }
}

/// Makes the label table of a label file, given the file's content: one
/// label to a line, blank lines passed over.
pub fn set_labels(contents: &str) -> (labels: LabelRegistry)
    ensures
        labels@ == spec_set_labels(contents@),
{
    let chars: Vec<char> = chars_of(contents);
    let n: usize = chars.len();
    let mut labels: LabelRegistry = LabelRegistry::new();
    let ghost mut done: Seq<Seq<char>> = Seq::empty();
    let mut start: usize = 0;
    let mut i: usize = 0;
    proof {
        assert(chars@.take(0) =~= Seq::<char>::empty());
        assert(chars@.subrange(0, 0) =~= Seq::<char>::empty());
        assert(seq![Seq::<char>::empty()] =~= done.push(Seq::<char>::empty()));
    }
    while i < n
        invariant
            start <= i <= n,
            n == chars@.len(),
            split_lines(chars@.take(i as int)) == done.push(
                chars@.subrange(start as int, i as int),
            ),
            labels@ == labels_of_lines(done),
        decreases n - i,
    {
        proof {
            let seen = chars@.take(i + 1);
            assert(seen.drop_last() =~= chars@.take(i as int));
            assert(seen.last() == chars@[i as int]);
            assert(done.push(chars@.subrange(start as int, i as int)).drop_last() =~= done);
        }
        if chars[i] == '\n' {
            labels.add_line(&chars, start, i);
            proof {
                let line = chars@.subrange(start as int, i as int);
                assert(done.push(line).drop_last() =~= done);
                done = done.push(line);
                assert(chars@.subrange(i + 1, i + 1) =~= Seq::<char>::empty());
            }
            start = i + 1;
        } else {
            assert(chars@.subrange(start as int, i + 1) =~= chars@.subrange(
                start as int,
                i as int,
            ).push(chars@[i as int]));
        }
        i += 1;
    }
    labels.add_line(&chars, start, n);
    proof {
        let line = chars@.subrange(start as int, n as int);
        assert(chars@.take(n as int) =~= chars@);
        assert(done.push(line).drop_last() =~= done);
    }
    labels
}

/// Writes a hashed name as text: its label where `labels` has one, else a
/// literal, `0x` and the digits to base sixteen in lower case.
pub fn serialize(hash40: &Hash40, labels: &LabelRegistry) -> (s: String)
    ensures
        s@ == resolve(labels@, *hash40),
{
    match labels.map.get(hash40) {
        Some(label) => label.clone(),
        None => {
            let chars: Vec<char> = hex_chars(*hash40);
            string_from(&chars, 0, chars.len())
        },
    }
}

/// Reads a name written as text: a literal gives its number, a label its hash.
pub fn deserialize(s: &str) -> (r: Result<Hash40, Error>)
    ensures
        r == spec_deserialize(s@),
{
    let chars: Vec<char> = chars_of(s);
    let n: usize = chars.len();
    if n >= 2 && chars[0] == '0' && chars[1] == 'x' {
        let mut at: usize = 2;
        while n - at >= 2 && chars[at] == '0' && chars[at + 1] == 'x'
            invariant
                at <= n,
                n == chars@.len(),
                strip_hex_prefix(chars@) == strip_hex_prefix(chars@.skip(at as int)),
            decreases n - at,
        {
            assert(chars@.skip(at as int).skip(2) =~= chars@.skip(at + 2));
            at += 2;
        }
        match parse_hex_from(&chars, at) {
            Some(name) => Ok(name),
            None => Err(Error::TextParseError),
        }
    } else {
        Ok(hash40(s))
    }
}

/// A literal reads as the number it was written from.
pub proof fn lemma_deserialize_hex_literal(name: u64)
    ensures
        spec_deserialize(hex_literal(name)) == Ok::<u64, Error>(name),
{
    let digits = hex_digits(name as nat);
    let text = hex_literal(name);
    lemma_digits_value_of_hex_digits(name as nat);
    assert(text.skip(2) =~= digits);
    assert(strip_hex_prefix(digits) == digits);
    assert(strip_hex_prefix(text) == digits);
}

/// A name without a label is written as a literal, and that literal reads as
/// the name again; its literal, read and written once more, is the same text.
pub proof fn lemma_unlabelled_name_round_trips(table: Map<u64, Seq<char>>, name: u64)
    requires
        !table.contains_key(name),
    ensures
        resolve(table, name) == hex_literal(name),
        spec_deserialize(resolve(table, name)) == Ok::<u64, Error>(name),
        resolve(table, spec_deserialize(hex_literal(name))->Ok_0) == hex_literal(name),
{
    lemma_deserialize_hex_literal(name);
}

/// Whether line `i` gives the table an entry: it is not blank.
pub open spec fn is_label_line(lines: Seq<Seq<char>>, i: int) -> bool {
    0 <= i < lines.len() && trim(lines[i]).len() > 0
}

/// The names that have a label are the hashes of the lines that are not blank.
pub proof fn lemma_labels_of_lines_names(lines: Seq<Seq<char>>, name: u64)
    ensures
        labels_of_lines(lines).contains_key(name) <==> exists|i: int|
            is_label_line(lines, i) && hash40_of(trim(#[trigger] lines[i])) == name,
    decreases lines.len(),
{
    if lines.len() > 0 {
        let front = lines.drop_last();
        lemma_labels_of_lines_names(front, name);
        let last = lines.len() - 1;
        if labels_of_lines(lines).contains_key(name) {
            if labels_of_lines(front).contains_key(name) {
                let i = choose|i: int|
                    is_label_line(front, i) && hash40_of(trim(#[trigger] front[i])) == name;
                assert(is_label_line(lines, i) && hash40_of(trim(lines[i])) == name);
            } else {
                assert(is_label_line(lines, last) && hash40_of(trim(lines[last])) == name);
            }
        }
        if exists|i: int| is_label_line(lines, i) && hash40_of(trim(#[trigger] lines[i])) == name {
            let i = choose|i: int|
                is_label_line(lines, i) && hash40_of(trim(#[trigger] lines[i])) == name;
            if i < last {
                assert(is_label_line(front, i) && hash40_of(trim(front[i])) == name);
            }
        }
    }
}

/// A line that is not blank is the label of its hash, unless a later line
/// has the same hash.
pub proof fn lemma_labels_of_lines_label(lines: Seq<Seq<char>>, i: int)
    requires
        is_label_line(lines, i),
        forall|j: int|
            i < j && is_label_line(lines, j) ==> hash40_of(trim(#[trigger] lines[j]))
                != hash40_of(trim(lines[i])),
    ensures
        labels_of_lines(lines).contains_key(hash40_of(trim(lines[i]))),
        labels_of_lines(lines)[hash40_of(trim(lines[i]))] == lines[i],
    decreases lines.len(),
{
    let last = lines.len() - 1;
    if i < last {
        let front = lines.drop_last();
        assert forall|j: int| i < j && is_label_line(front, j) implies hash40_of(
            trim(#[trigger] front[j]),
        ) != hash40_of(trim(front[i])) by {
            assert(is_label_line(lines, j));
            assert(front[j] == lines[j]);
        }
        lemma_labels_of_lines_label(front, i);
        if is_label_line(lines, last) {
            assert(hash40_of(trim(lines[last])) != hash40_of(trim(lines[i])));
        }
    }
}

/// After a label file is loaded, the hash of each of its lines that is not
/// blank is written as that line, unless a later line has the same hash.
pub proof fn lemma_loaded_label_resolves(contents: Seq<char>, i: int)
    requires
        is_label_line(split_lines(contents), i),
        forall|j: int|
            i < j && is_label_line(split_lines(contents), j) ==> hash40_of(
                trim(#[trigger] split_lines(contents)[j]),
            ) != hash40_of(trim(split_lines(contents)[i])),
    ensures
        resolve(spec_set_labels(contents), hash40_of(trim(split_lines(contents)[i])))
            == split_lines(contents)[i],
{
    lemma_labels_of_lines_label(split_lines(contents), i);
}

/// After a label file is loaded, a name that is the hash of none of its lines
/// is written as a literal.
pub proof fn lemma_unloaded_name_resolves_to_literal(contents: Seq<char>, name: u64)
    requires
        forall|i: int|
            is_label_line(split_lines(contents), i) ==> hash40_of(
                trim(#[trigger] split_lines(contents)[i]),
            ) != name,
    ensures
        resolve(spec_set_labels(contents), name) == hex_literal(name),
        spec_deserialize(resolve(spec_set_labels(contents), name)) == Ok::<u64, Error>(name),
{
    lemma_labels_of_lines_names(split_lines(contents), name);
    lemma_deserialize_hex_literal(name);
}

/// A loaded label reads as the name it is the label of, where the line
/// stands without white space at its ends, does not begin with `0x`, and no
/// later line has its hash.
pub proof fn lemma_loaded_label_round_trips(contents: Seq<char>, i: int)
    requires
        is_label_line(split_lines(contents), i),
        trim(split_lines(contents)[i]) == split_lines(contents)[i],
        !(split_lines(contents)[i].len() >= 2 && split_lines(contents)[i][0] == '0'
            && split_lines(contents)[i][1] == 'x'),
        forall|j: int|
            i < j && is_label_line(split_lines(contents), j) ==> hash40_of(
                trim(#[trigger] split_lines(contents)[j]),
            ) != hash40_of(trim(split_lines(contents)[i])),
    ensures
        spec_deserialize(
            resolve(spec_set_labels(contents), hash40_of(split_lines(contents)[i])),
        ) == Ok::<u64, Error>(hash40_of(split_lines(contents)[i])),
{
    lemma_loaded_label_resolves(contents, i);
}

} // verus!
