//! The written form of a hierarchy: party labels, `+` between the coalitions
//! of a mega-coalition, and spaces or commas between mega-coalitions.

use vstd::prelude::*;
use vstd::string::*;
use crate::hierarchy::{has_empty_group, lemma_concat_all_push, mega_id, mega_ids, parties};

verus! {

/// A space or a comma: what stands between mega-coalitions.
pub open spec fn is_separator(c: char) -> bool {
    c == ' ' || c == ','
}

/// The sign that stands between the coalitions of a mega-coalition.
pub open spec fn is_join(c: char) -> bool {
    c == '+'
}

/// Any other character is the label of a party.
pub open spec fn is_label(c: char) -> bool {
    !is_separator(c) && !is_join(c)
}

/// Every `+` of the text directly follows a party label.
pub open spec fn well_joined(text: Seq<char>) -> bool {
    forall|n: int| 0 <= n < text.len() && is_join(#[trigger] text[n]) ==> n > 0 && is_label(text[n - 1])
}

/// The hierarchy before anything is read: one mega-coalition of one coalition
/// without parties.
pub open spec fn blank() -> Seq<Seq<Seq<char>>> {
    seq![seq![Seq::<char>::empty()]]
}

/// The hierarchy after one more character is read.
///
/// A label joins the coalition that is being read. A `+` opens the next
/// coalition of the same mega-coalition. A separator opens the next
/// mega-coalition, unless the coalition that is being read has no party yet.
pub open spec fn read_one(so_far: Seq<Seq<Seq<char>>>, c: char) -> Seq<Seq<Seq<char>>> {
    let mega = so_far.last();
    let coalition = mega.last();
    if is_separator(c) {
        if coalition.len() > 0 {
            so_far.push(seq![Seq::<char>::empty()])
        } else {
            so_far
        }
    } else if is_join(c) {
        so_far.drop_last().push(mega.push(Seq::<char>::empty()))
    } else {
        so_far.drop_last().push(mega.drop_last().push(coalition.push(c)))
    }
}

/// The hierarchy that a text stands for.
pub open spec fn parsed(text: Seq<char>) -> Seq<Seq<Seq<char>>>
    decreases text.len(),
{
    if text.len() == 0 {
        blank()
    } else {
        read_one(parsed(text.drop_last()), text.last())
    }
}

/// Reading the first `n + 1` characters is reading character `n` after the
/// first `n`.
pub proof fn lemma_parsed_step(text: Seq<char>, n: int)
    requires
        0 <= n < text.len(),
    ensures
        parsed(text.take(n + 1)) == read_one(parsed(text.take(n)), text[n]),
{
    assert(text.take(n + 1).drop_last() =~= text.take(n));
}

/// A text whose `+` each follow a label stays so without its last character.
proof fn lemma_well_joined_prefix(text: Seq<char>)
    requires
        well_joined(text),
        text.len() > 0,
    ensures
        well_joined(text.drop_last()),
{
    let rest = text.drop_last();
    assert forall|n: int| 0 <= n < rest.len() && is_join(#[trigger] rest[n]) implies n > 0
        && is_label(rest[n - 1]) by {
        assert(is_join(text[n]));
    }
}

/// A parsed hierarchy has a mega-coalition, every mega-coalition has a
/// coalition, and only the coalition read last can be without parties: it is
/// unless the text ends with a label.
pub proof fn lemma_parsed_groups(text: Seq<char>)
    requires
        well_joined(text),
    ensures
        parsed(text).len() > 0,
        forall|i: int| 0 <= i < parsed(text).len() ==> (#[trigger] parsed(text)[i]).len() > 0,
        forall|i: int, j: int|
            0 <= i < parsed(text).len() && 0 <= j < parsed(text)[i].len() && (
            #[trigger] parsed(text)[i][j]).len() == 0 ==> i == parsed(text).len() - 1 && j
                == parsed(text)[i].len() - 1,
        parsed(text).last().last().len() > 0 <==> text.len() > 0 && is_label(text.last()),
        has_empty_group(parsed(text)) <==> !(text.len() > 0 && is_label(text.last())),
    decreases text.len(),
{
    let now = parsed(text);
    if text.len() > 0 {
        let rest = text.drop_last();
        let before = parsed(rest);
        lemma_well_joined_prefix(text);
        lemma_parsed_groups(rest);
        let c = text.last();
        let last = before.len() - 1;
        let mega = before.last();
        let coalition = mega.last();
        if is_join(c) {
            assert(is_join(text[text.len() - 1]));
            assert(rest.last() == text[text.len() - 2]);
            assert(coalition.len() > 0);
        }
        assert forall|i: int| 0 <= i < now.len() implies (#[trigger] now[i]).len() > 0 by {
            if i < last {
                assert(now[i] == before[i]);
            }
        }
        assert forall|i: int, j: int|
            0 <= i < now.len() && 0 <= j < now[i].len() && (#[trigger] now[i][j]).len()
                == 0 implies i == now.len() - 1 && j == now[i].len() - 1 by {
            if i < last {
                assert(now[i] == before[i]);
                assert(before[i][j].len() == 0);
            } else if is_separator(c) {
                if i == last && coalition.len() > 0 {
                    assert(now[i] == before[i]);
                    assert(before[i][j].len() == 0);
                }
            } else if is_join(c) {
                if j < now[i].len() - 1 {
                    assert(now[i][j] == before[i][j]);
                }
            } else {
                if j < now[i].len() - 1 {
                    assert(now[i][j] == before[i][j]);
                }
            }
        }
    }
    let i = now.len() - 1;
    let j = now[i].len() - 1;
    if now[i][j].len() == 0 {
        assert(has_empty_group(now));
    }
}

/// The parties of a parsed hierarchy, in reading order, are the labels of the
/// text.
pub proof fn lemma_parsed_parties(text: Seq<char>)
    ensures
        parsed(text).len() > 0,
        parsed(text).last().len() > 0,
        parties(parsed(text)) == text.filter(|c: char| is_label(c)),
    decreases text.len(),
{
    let labels = |c: char| is_label(c);
    let none = Seq::<char>::empty();
    if text.len() == 0 {
        let now = parsed(text);
        lemma_concat_all_push(Seq::<Seq<char>>::empty(), none);
        assert(now[0] =~= Seq::<Seq<char>>::empty().push(none));
        assert(mega_id(now[0]) =~= none);
        assert(mega_ids(now) =~= Seq::<Seq<char>>::empty().push(none));
        assert(parties(now) =~= none);
        assert(text.filter(labels) =~= none);
    } else {
        let rest = text.drop_last();
        let c = text.last();
        let before = parsed(rest);
        let now = parsed(text);
        lemma_parsed_parties(rest);
        assert(text =~= rest.push(c));
        lemma_filter_push(rest, c);
        let mega = before.last();
        let coalition = mega.last();
        let earlier = mega_ids(before).drop_last();
        assert(before =~= before.drop_last().push(mega));
        assert(mega =~= mega.drop_last().push(coalition));
        assert(mega_ids(before) =~= earlier.push(mega_id(mega)));
        lemma_concat_all_push(earlier, mega_id(mega));
        lemma_concat_all_push(mega.drop_last(), coalition);
        if is_separator(c) {
            if coalition.len() > 0 {
                lemma_concat_all_push(Seq::<Seq<char>>::empty(), none);
                assert(now.last() =~= Seq::<Seq<char>>::empty().push(none));
                assert(mega_id(now.last()) =~= none);
                assert(mega_ids(now) =~= mega_ids(before).push(none));
                lemma_concat_all_push(mega_ids(before), none);
                assert(parties(now) =~= parties(before));
            }
        } else if is_join(c) {
            lemma_concat_all_push(mega, none);
            assert(mega_id(now.last()) =~= mega_id(mega));
            assert(mega_ids(now) =~= mega_ids(before));
        } else {
            lemma_concat_all_push(mega.drop_last(), coalition.push(c));
            assert(mega_id(now.last()) =~= mega_id(mega).push(c));
            assert(mega_ids(now) =~= earlier.push(mega_id(mega).push(c)));
            lemma_concat_all_push(earlier, mega_id(mega).push(c));
            assert(parties(now) =~= parties(before).push(c));
        }
    }
}

/// Filtering a text with one more character keeps that character if it
/// passes.
proof fn lemma_filter_push(text: Seq<char>, c: char)
    ensures
        text.push(c).filter(|c: char| is_label(c)) == if is_label(c) {
            text.filter(|c: char| is_label(c)).push(c)
        } else {
            text.filter(|c: char| is_label(c))
        },
{
    let labels = |c: char| is_label(c);
    reveal(Seq::filter);
    assert(text.push(c).drop_last() =~= text);
}

/// Whether every `+` of a text directly follows a party label: whether
/// [`parse_coalitions`] can read the text.
pub fn is_well_joined(s: &str) -> (well: bool)
    ensures
        well == well_joined(s@),
{
    let n = s.unicode_len();
    let mut after_label = false;
    let mut i: usize = 0;
    while i < n
        invariant
            i <= n,
            n == s@.len(),
            after_label <==> i > 0 && is_label(s@[i - 1]),
            forall|m: int| 0 <= m < i && is_join(#[trigger] s@[m]) ==> m > 0 && is_label(s@[m - 1]),
        decreases n - i,
    {
        let c = s.get_char(i);
        if c == '+' && !after_label {
            return false;
        }
        after_label = c != '+' && c != ' ' && c != ',';
        i += 1;
    }
    true
}

/// Reads a hierarchy from its written form.
///
/// Separators before the first label, after another separator or after a `+`
/// open nothing. Separators at the end of the text, a `+` at its end or a
/// text without labels leave the coalition that is read last without parties.
pub fn parse_coalitions(s: &str) -> (coalitions: Vec<Vec<String>>)
    requires
        well_joined(s@),
    ensures
        coalitions.deep_view() == parsed(s@),
{
    let n = s.unicode_len();
    let mut done: Vec<Vec<String>> = Vec::new();
    let mut mega: Vec<String> = Vec::new();
    let mut coalition = String::new();
    let mut i: usize = 0;
    assert(s@.take(0) =~= Seq::<char>::empty());
    assert(done.deep_view().push(mega.deep_view().push(coalition@)) =~~= blank());
    while i < n
        invariant
            i <= n,
            n == s@.len(),
            parsed(s@.take(i as int)) == done.deep_view().push(mega.deep_view().push(coalition@)),
        decreases n - i,
    {
        let c = s.get_char(i);
        let ghost before = parsed(s@.take(i as int));
        let ghost done_before = done.deep_view();
        let ghost mega_before = mega.deep_view();
        proof {
            lemma_parsed_step(s@, i as int);
            assert(before.last() == mega_before.push(coalition@));
            assert(before.last().last() == coalition@);
            assert(before.drop_last() =~= done_before);
            assert(before.last().drop_last() =~= mega_before);
        }
        if c == ' ' || c == ',' {
            if coalition.as_str().unicode_len() > 0 {
                mega.push(coalition);
                done.push(mega);
                mega = Vec::new();
                coalition = String::new();
                proof {
                    assert(done.deep_view() =~~= before);
                    assert(mega.deep_view().push(coalition@) =~~= seq![Seq::<char>::empty()]);
                }
            }
        } else if c == '+' {
            mega.push(coalition);
            coalition = String::new();
            assert(mega.deep_view() =~~= mega_before.push(before.last().last()));
        } else {
            coalition.append(s.substring_char(i, i + 1));
            assert(coalition@ =~= before.last().last().push(c));
        }
        i += 1;
    }
    assert(s@.take(n as int) =~= s@);
    let ghost last_mega = mega.deep_view().push(coalition@);
    let ghost all_done = done.deep_view();
    mega.push(coalition);
    done.push(mega);
    assert(done.deep_view() =~~= all_done.push(last_mega));
    done
}

} // verus!
