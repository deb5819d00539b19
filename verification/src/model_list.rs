//! The arena's model list: a text file naming one model per line. Blank lines and
//! lines that start with `#` are skipped; of any other line the last white-space
//! separated word is the model's path.
use vstd::prelude::*;

use crate::json::{trim_end_index, trim_end_to, trim_start_from, trim_start_index, whitespace_len_before};
use crate::text::copy_range;

verus! {

/// End of the line that starts at `from`: the first newline at or after `from`, or the
/// end of the text.
pub open spec fn line_end(s: Seq<u8>, from: int) -> int
    decreases s.len() - from,
{
    if from < 0 || from >= s.len() || s[from] == 10u8 {
        from
    } else {
        line_end(s, from + 1)
    }
}

/// Start of the last word of `s[start..end]`: just after the last white-space character
/// that ends in that range, or `start` when there is none.
pub open spec fn last_word_start(s: Seq<u8>, start: int, end: int) -> int
    decreases end - start,
{
    if end <= start {
        start
    } else if whitespace_len_before(s, start, end) > 0 {
        end
    } else {
        last_word_start(s, start, end - 1)
    }
}

/// The model path named by the line `s[start..end]`, if it names one.
pub open spec fn line_entry(s: Seq<u8>, start: int, end: int) -> Seq<Seq<u8>> {
    let first = trim_start_from(s, start, end);
    let last = trim_end_to(s, first, end);
    if first == last || s[first] == 35u8 {
        Seq::empty()
    } else {
        seq![s.subrange(last_word_start(s, first, last), last)]
    }
}

/// The model paths named by the lines that start at or after `from`.
pub open spec fn model_list_entries_from(s: Seq<u8>, from: int) -> Seq<Seq<u8>>
    decreases s.len() - from,
    via model_list_entries_decreases
{
    if from < 0 || from >= s.len() {
        Seq::empty()
    } else {
        let end = line_end(s, from);
        line_entry(s, from, end) + if end < s.len() {
            model_list_entries_from(s, end + 1)
        } else {
            Seq::empty()
        }
    }
}

#[via_fn]
proof fn model_list_entries_decreases(s: Seq<u8>, from: int) {
    if 0 <= from < s.len() {
        lemma_line_end_bounds(s, from);
    }
}

/// The model paths a model list names, in order.
pub open spec fn model_list_entries_spec(s: Seq<u8>) -> Seq<Seq<u8>> {
    model_list_entries_from(s, 0)
}

pub proof fn lemma_line_end_bounds(s: Seq<u8>, from: int)
    requires
        0 <= from <= s.len(),
    ensures
        from <= line_end(s, from) <= s.len(),
        line_end(s, from) < s.len() ==> s[line_end(s, from)] == 10u8,
        forall|j: int| from <= j < line_end(s, from) ==> #[trigger] s[j] != 10u8,
    decreases s.len() - from,
{
    if from < s.len() && s[from] != 10u8 {
        lemma_line_end_bounds(s, from + 1);
    }
}

proof fn lemma_last_word_start_bounds(s: Seq<u8>, start: int, end: int)
    requires
        start <= end,
    ensures
        start <= last_word_start(s, start, end) <= end,
    decreases end - start,
{
    if end > start && whitespace_len_before(s, start, end) == 0 {
        lemma_last_word_start_bounds(s, start, end - 1);
    }
}

fn line_end_index(s: &[u8], from: usize) -> (end: usize)
    requires
        from <= s.len(),
    ensures
        end == line_end(s@, from as int),
        from <= end <= s.len(),
{
    let mut i = from;
    while i < s.len() && s[i] != 10u8
        invariant
            from <= i <= s.len(),
            line_end(s@, i as int) == line_end(s@, from as int),
        decreases s.len() - i,
    {
        i = i + 1;
    }
    i
}

fn last_word_start_index(s: &[u8], start: usize, end: usize) -> (word: usize)
    requires
        start <= end <= s.len(),
    ensures
        word == last_word_start(s@, start as int, end as int),
        start <= word <= end,
{
    let mut j = end;
    while j > start
        invariant
            start <= j <= end <= s.len(),
            last_word_start(s@, start as int, j as int) == last_word_start(
                s@,
                start as int,
                end as int,
            ),
        decreases j - start,
    {
        let z = s[j - 1];
        let mut found = z == 32 || (9 <= z && z <= 13);
        if !found && j - start >= 2 && s[j - 2] == 0xC2 && (z == 0x85 || z == 0xA0) {
            found = true;
        }
        if !found && j - start >= 3 {
            let a = s[j - 3];
            let b = s[j - 2];
            found = (a == 0xE1 && b == 0x9A && z == 0x80) || (a == 0xE2 && b == 0x80 && ((0x80
                <= z && z <= 0x8A) || z == 0xA8 || z == 0xA9 || z == 0xAF)) || (a == 0xE2 && b
                == 0x81 && z == 0x9F) || (a == 0xE3 && b == 0x80 && z == 0x80);
        }
        assert(found == (whitespace_len_before(s@, start as int, j as int) > 0));
        if found {
            return j;
        }
        j = j - 1;
    }
    j
}

/// The model paths that the text of a model list names, in order: for each line that
/// is not blank once trimmed (`str::trim`) and does not start with `#`, its last
/// white-space separated word. Lines end at a newline; a carriage return before it is
/// white space and trimmed away.
pub fn model_list_entries(text: &[u8]) -> (entries: Vec<Vec<u8>>)
    ensures
        entries@.map_values(|entry: Vec<u8>| entry@) == model_list_entries_spec(text@),
{
    let mut entries: Vec<Vec<u8>> = Vec::new();
    let mut pos: usize = 0;
    while pos < text.len()
        invariant
            pos <= text.len(),
            entries@.map_values(|entry: Vec<u8>| entry@) + model_list_entries_from(
                text@,
                pos as int,
            ) == model_list_entries_from(text@, 0),
        decreases text.len() - pos,
    {
        let ghost before = entries@.map_values(|entry: Vec<u8>| entry@);
        let end = line_end_index(text, pos);
        let first = trim_start_index(text, pos, end);
        let last = trim_end_index(text, first, end);
        let ghost line = line_entry(text@, pos as int, end as int);
        if first < last && text[first] != 35u8 {
            let word = last_word_start_index(text, first, last);
            let entry = copy_range(text, word, last);
            entries.push(entry);
            proof {
                assert(entries@.map_values(|entry: Vec<u8>| entry@) =~= before + line);
            }
        } else {
            proof {
                assert(line =~= Seq::<Seq<u8>>::empty());
                assert(entries@.map_values(|entry: Vec<u8>| entry@) =~= before + line);
            }
        }
        proof {
            let rest = if end < text.len() {
                model_list_entries_from(text@, end + 1)
            } else {
                Seq::empty()
            };
            assert(model_list_entries_from(text@, pos as int) == line + rest);
            assert(before + (line + rest) =~= (before + line) + rest);
        }
        if end < text.len() {
            pos = end + 1;
        } else {
            pos = end;
        }
    }
    proof {
        assert(model_list_entries_from(text@, pos as int) =~= Seq::<Seq<u8>>::empty());
        assert(entries@.map_values(|entry: Vec<u8>| entry@) + Seq::<Seq<u8>>::empty()
            =~= entries@.map_values(|entry: Vec<u8>| entry@));
    }
    entries
}

} // verus!
