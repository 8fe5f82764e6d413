//! Text that the interpreter takes apart and puts together: blanks, joined
//! words and decimal numbers.

use vstd::prelude::*;

verus! {

/// Whether `c` is blank: a space, a tab, a carriage return or a line feed.
pub open spec fn is_whitespace(c: char) -> bool {
    c == ' ' || c == '\t' || c == '\r' || c == '\n'
}

/// Tells whether `c` is blank.
pub fn whitespace(c: char) -> (blank: bool)
    ensures
        blank == is_whitespace(c),
{
    c == ' ' || c == '\t' || c == '\r' || c == '\n'
}

/// Whether `text` holds nothing but blanks.
pub open spec fn all_blank(text: Seq<char>) -> bool {
    forall|i: int| 0 <= i < text.len() ==> is_whitespace(#[trigger] text[i])
}

/// Whether `text` holds no blank.
pub open spec fn no_blank(text: Seq<char>) -> bool {
    forall|i: int| 0 <= i < text.len() ==> !is_whitespace(#[trigger] text[i])
}

/// `text` without the blanks at its front.
pub open spec fn trim_start(text: Seq<char>) -> Seq<char>
    decreases text.len(),
{
    if text.len() > 0 && is_whitespace(text[0]) {
        trim_start(text.skip(1))
    } else {
        text
    }
}

/// `text` without the blanks at its end.
pub open spec fn trim_end(text: Seq<char>) -> Seq<char>
    decreases text.len(),
{
    if text.len() > 0 && is_whitespace(text.last()) {
        trim_end(text.drop_last())
    } else {
        text
    }
}

/// `text` with one space in place of every stretch of blanks.
pub open spec fn squeezed(text: Seq<char>) -> Seq<char>
    decreases text.len(),
{
    if text.len() == 0 {
        text
    } else if !is_whitespace(text[0]) {
        seq![text[0]] + squeezed(text.skip(1))
    } else if text.len() > 1 && is_whitespace(text[1]) {
        squeezed(text.skip(1))
    } else {
        seq![' '] + squeezed(text.skip(1))
    }
}

/// `text` with its blanks collapsed: none at either end, and one space in
/// place of every stretch of blanks between.
pub open spec fn collapsed(text: Seq<char>) -> Seq<char> {
    squeezed(trim_end(trim_start(text)))
}

/// Blanks at the end of a text do not count when its end is trimmed.
pub proof fn lemma_trim_end_blank(head: Seq<char>, tail: Seq<char>)
    requires
        all_blank(tail),
    ensures
        trim_end(head + tail) == trim_end(head),
    decreases tail.len(),
{
    let text = head + tail;
    if tail.len() == 0 {
        assert(text =~= head);
    } else {
        assert(text.last() == tail.last());
        assert(text.drop_last() =~= head + tail.drop_last());
        lemma_trim_end_blank(head, tail.drop_last());
    }
}

/// Trimming the end of a text leaves alone whatever stands before a
/// character that is not blank.
pub proof fn lemma_trim_end_keeps(head: Seq<char>, tail: Seq<char>)
    requires
        !all_blank(tail),
    ensures
        trim_end(head + tail) == head + trim_end(tail),
        trim_end(tail).len() > 0,
        trim_end(tail)[0] == tail[0],
    decreases tail.len(),
{
    let text = head + tail;
    assert(tail.len() > 0);
    assert(text.last() == tail.last());
    if is_whitespace(tail.last()) {
        let shorter = tail.drop_last();
        assert(text.drop_last() =~= head + shorter);
        let i = choose|i: int| 0 <= i < tail.len() && !is_whitespace(#[trigger] tail[i]);
        assert(shorter[i] == tail[i]);
        lemma_trim_end_keeps(head, shorter);
    }
}

/// Squeezing leaves a stretch without blanks as it is.
pub proof fn lemma_squeezed_word(word: Seq<char>, tail: Seq<char>)
    requires
        no_blank(word),
    ensures
        squeezed(word + tail) == word + squeezed(tail),
    decreases word.len(),
{
    let text = word + tail;
    if word.len() == 0 {
        assert(text =~= tail);
        assert(word + squeezed(tail) =~= squeezed(tail));
    } else {
        assert(text[0] == word[0]);
        assert(text.skip(1) =~= word.skip(1) + tail);
        assert forall|i: int| 0 <= i < word.skip(1).len() implies !is_whitespace(
            #[trigger] word.skip(1)[i],
        ) by {
            assert(word.skip(1)[i] == word[i + 1]);
        }
        lemma_squeezed_word(word.skip(1), tail);
        assert(seq![word[0]] + (word.skip(1) + squeezed(tail)) =~= word + squeezed(tail));
    }
}

/// Squeezing turns a stretch of blanks before a word into one space.
pub proof fn lemma_squeezed_gap(gap: Seq<char>, tail: Seq<char>)
    requires
        gap.len() > 0,
        all_blank(gap),
        tail.len() > 0,
        !is_whitespace(tail[0]),
    ensures
        squeezed(gap + tail) == seq![' '] + squeezed(tail),
    decreases gap.len(),
{
    let text = gap + tail;
    assert(text[0] == gap[0]);
    if gap.len() == 1 {
        assert(text[1] == tail[0]);
        assert(text.skip(1) =~= tail);
    } else {
        assert(text[1] == gap[1]);
        assert(text.skip(1) =~= gap.skip(1) + tail);
        assert forall|i: int| 0 <= i < gap.skip(1).len() implies is_whitespace(
            #[trigger] gap.skip(1)[i],
        ) by {
            assert(gap.skip(1)[i] == gap[i + 1]);
        }
        lemma_squeezed_gap(gap.skip(1), tail);
    }
}

/// A word followed by nothing but blanks is, trimmed and squeezed, the word.
pub proof fn lemma_collapsed_last_word(word: Seq<char>, rest: Seq<char>)
    requires
        word.len() > 0,
        no_blank(word),
        all_blank(rest),
    ensures
        squeezed(trim_end(word + rest)) == word,
{
    lemma_trim_end_blank(word, rest);
    assert(!is_whitespace(word.last()));
    assert(trim_end(word) == word);
    lemma_squeezed_word(word, Seq::empty());
    assert(word + Seq::<char>::empty() =~= word);
    assert(squeezed(Seq::<char>::empty()) =~= Seq::<char>::empty());
}

/// A word followed by blanks and more text is, trimmed and squeezed, the
/// word, one space, and the rest trimmed and squeezed.
pub proof fn lemma_collapsed_word(word: Seq<char>, gap: Seq<char>, after: Seq<char>)
    requires
        no_blank(word),
        gap.len() > 0,
        all_blank(gap),
        after.len() > 0,
        !is_whitespace(after[0]),
    ensures
        squeezed(trim_end(word + (gap + after))) == word + seq![' '] + squeezed(trim_end(after)),
{
    let rest = gap + after;
    assert(rest[gap.len() as int] == after[0]);
    lemma_trim_end_keeps(word, rest);
    lemma_squeezed_word(word, trim_end(rest));
    lemma_trim_end_keeps(gap, after);
    lemma_squeezed_gap(gap, trim_end(after));
    assert(word + (seq![' '] + squeezed(trim_end(after))) =~= word + seq![' '] + squeezed(
        trim_end(after),
    ));
}

/// The items of `items` in order, with `sep` between each two neighbours.
pub open spec fn joined(items: Seq<Seq<char>>, sep: Seq<char>) -> Seq<char>
    decreases items.len(),
{
    if items.len() == 0 {
        Seq::empty()
    } else if items.len() == 1 {
        items[0]
    } else {
        items[0] + sep + joined(items.skip(1), sep)
    }
}

/// Joining one more item onto a non-empty list appends the separator and the item.
pub proof fn lemma_joined_push(items: Seq<Seq<char>>, last: Seq<char>, sep: Seq<char>)
    requires
        items.len() > 0,
    ensures
        joined(items.push(last), sep) == joined(items, sep) + sep + last,
    decreases items.len(),
{
    let all = items.push(last);
    if items.len() == 1 {
        assert(all.skip(1) =~= seq![last]);
        assert(joined(all.skip(1), sep) == last);
    } else {
        assert(all.skip(1) =~= items.skip(1).push(last));
        lemma_joined_push(items.skip(1), last, sep);
        assert(joined(all, sep) =~= joined(items, sep) + sep + last);
    }
}

/// Joins `items` into one string, with `sep` between each two neighbours.
pub fn join(items: &[String], sep: &str) -> (text: String)
    ensures
        text@ == joined(items.deep_view(), sep@),
{
    let mut text = String::new();
    let mut i: usize = 0;
    while i < items.len()
        invariant
            i <= items.len(),
            text@ == joined(items.deep_view().take(i as int), sep@),
        decreases items.len() - i,
    {
        let ghost before = items.deep_view().take(i as int);
        if i > 0 {
            text.append(sep);
        }
        text.append(items[i].as_str());
        proof {
            let after = items.deep_view().take(i + 1);
            assert(after =~= before.push(items[i as int]@));
            if i > 0 {
                lemma_joined_push(before, items[i as int]@, sep@);
            } else {
                assert(text@ =~= items[i as int]@);
            }
        }
        i += 1;
    }
    assert(items.deep_view().take(i as int) =~= items.deep_view());
    text
}

/// The decimal digit that stands for `d`, for `d` below ten.
pub open spec fn digit(d: nat) -> char {
    if d == 0 {
        '0'
    } else if d == 1 {
        '1'
    } else if d == 2 {
        '2'
    } else if d == 3 {
        '3'
    } else if d == 4 {
        '4'
    } else if d == 5 {
        '5'
    } else if d == 6 {
        '6'
    } else if d == 7 {
        '7'
    } else if d == 8 {
        '8'
    } else {
        '9'
    }
}

/// `n` written in base ten, without leading zeros.
pub open spec fn decimal(n: nat) -> Seq<char>
    decreases n,
{
    if n < 10 {
        seq![digit(n)]
    } else {
        decimal(n / 10).push(digit(n % 10))
    }
}

fn digit_str(d: usize) -> (text: &'static str)
    requires
        d < 10,
    ensures
        text@ == seq![digit(d as nat)],
{
    proof {
        reveal_strlit("0");
        reveal_strlit("1");
        reveal_strlit("2");
        reveal_strlit("3");
        reveal_strlit("4");
        reveal_strlit("5");
        reveal_strlit("6");
        reveal_strlit("7");
        reveal_strlit("8");
        reveal_strlit("9");
    }
    let text = if d == 0 {
        "0"
    } else if d == 1 {
        "1"
    } else if d == 2 {
        "2"
    } else if d == 3 {
        "3"
    } else if d == 4 {
        "4"
    } else if d == 5 {
        "5"
    } else if d == 6 {
        "6"
    } else if d == 7 {
        "7"
    } else if d == 8 {
        "8"
    } else {
        "9"
    };
    assert(text@ =~= seq![digit(d as nat)]);
    text
}

/// Writes `n` in base ten.
pub fn to_decimal(n: usize) -> (text: String)
    ensures
        text@ == decimal(n as nat),
    decreases n,
{
    if n < 10 {
        String::from_str(digit_str(n))
    } else {
        let mut text = to_decimal(n / 10);
        text.append(digit_str(n % 10));
        assert(text@ =~= decimal(n as nat));
        text
    }
}

} // verus!
