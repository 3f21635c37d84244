//! What a load generator makes of a token stream: newline-delimited JSON events,
//! of which it counts those that carry a token.

use vstd::prelude::*;
use vstd::slice::slice_subrange;

verus! {

/// What the JSON text `text` says of its member `key`: `None` if it is no JSON,
/// else the member's boolean, if it is an object that has one.
pub uninterp spec fn json_flag_of(text: Seq<u8>, key: Seq<char>) -> Option<Option<bool>>;

/// Parses `text` with `serde_json::from_slice`, looks a member of the value up
/// with `serde_json::Value::get` and takes its boolean with
/// `serde_json::Value::as_bool`. What is claimed is that the result is a function
/// of the text and the key; which texts are JSON is left to the crate.
#[verifier::external_body]
fn json_flag(text: &[u8], key: &str) -> (r: Option<Option<bool>>)
    ensures
        r == json_flag_of(text@, key@),
{
    match serde_json::from_slice::<serde_json::Value>(text) {
        Ok(value) => Some(value.get(key).and_then(serde_json::Value::as_bool)),
        Err(_) => None,
    }
}

/// What a line of a stream is.
#[derive(Debug, PartialEq, Eq, Clone, Copy)]
pub enum LineKind {
    /// Nothing between two newlines.
    Blank,
    /// An event that carries a token.
    Token,
    /// The event that ends the stream.
    Done,
    /// No JSON; a line that two chunks share, for one.
    Garbage,
}

impl LineKind {
    /// The kind of a line with text in it, by what its `done` member says.
    pub open spec fn of_flag(flag: Option<Option<bool>>) -> LineKind {
        match flag {
            None => LineKind::Garbage,
            Some(done) => if done == Some(true) {
                LineKind::Done
            } else {
                LineKind::Token
            },
        }
    }

    /// The kind of a line.
    pub open spec fn of_line(line: Seq<u8>) -> LineKind {
        if line.len() == 0 {
            LineKind::Blank
        } else {
            LineKind::of_flag(json_flag_of(line, "done"@))
        }
    }

    /// The tokens in a run of lines: those before the end of the stream.
    pub open spec fn tokens_in(kinds: Seq<LineKind>) -> nat
        decreases kinds.len(),
    {
        if kinds.len() == 0 {
            0
        } else {
            match kinds[0] {
                LineKind::Done => 0,
                LineKind::Token => 1 + LineKind::tokens_in(kinds.skip(1)),
                LineKind::Blank | LineKind::Garbage => LineKind::tokens_in(kinds.skip(1)),
            }
        }
    }

    /// Some line has text in it.
    pub open spec fn any_text(kinds: Seq<LineKind>) -> bool {
        exists|i: int| 0 <= i < kinds.len() && !((#[trigger] kinds[i]) is Blank)
    }

    /// The pieces of `bytes` between newlines.
    pub open spec fn lines(bytes: Seq<u8>) -> Seq<Seq<u8>>
        decreases bytes.len(),
    {
        if bytes.len() == 0 {
            seq![Seq::empty()]
        } else {
            let before = LineKind::lines(bytes.drop_last());
            if bytes.last() == 10 {
                before.push(Seq::empty())
            } else {
                before.drop_last().push(before.last().push(bytes.last()))
            }
        }
    }

    /// The kinds of the lines of a chunk.
    pub open spec fn of_chunk(bytes: Seq<u8>) -> Seq<LineKind> {
        LineKind::lines(bytes).map_values(|line: Seq<u8>| LineKind::of_line(line))
    }
}

/// The kind of a line with text in it, by what its `done` member says.
pub fn kind_of_flag(flag: Option<Option<bool>>) -> (k: LineKind)
    ensures
        k == LineKind::of_flag(flag),
{
    match flag {
        None => LineKind::Garbage,
        Some(Some(true)) => LineKind::Done,
        Some(_) => LineKind::Token,
    }
}

/// The kind of a line.
pub fn kind_of_line(line: &[u8]) -> (k: LineKind)
    ensures
        k == LineKind::of_line(line@),
{
    if line.len() == 0 {
        LineKind::Blank
    } else {
        kind_of_flag(json_flag(line, "done"))
    }
}

/// The kinds of the lines of a chunk.
pub fn kinds_of_chunk(bytes: &[u8]) -> (kinds: Vec<LineKind>)
    ensures
        kinds@ == LineKind::of_chunk(bytes@),
        kinds@.len() <= bytes@.len() + 1,
{
    let ghost kind = |line: Seq<u8>| LineKind::of_line(line);
    let mut kinds: Vec<LineKind> = Vec::new();
    let mut start: usize = 0;
    let mut i: usize = 0;
    let ghost mut whole: Seq<Seq<u8>> = Seq::empty();
    proof {
        assert(bytes@.take(0) =~= Seq::<u8>::empty());
        assert(bytes@.subrange(0, 0) =~= Seq::<u8>::empty());
        assert(whole.push(bytes@.subrange(0, 0)) =~= LineKind::lines(bytes@.take(0)));
        assert(kinds@ =~= whole.map_values(kind));
    }
    while i < bytes.len()
        invariant
            start <= i <= bytes@.len(),
            kind == (|line: Seq<u8>| LineKind::of_line(line)),
            LineKind::lines(bytes@.take(i as int)) == whole.push(
                bytes@.subrange(start as int, i as int),
            ),
            kinds@ == whole.map_values(kind),
            kinds@.len() <= i,
        decreases bytes@.len() - i,
    {
        let ghost current = bytes@.subrange(start as int, i as int);
        let ghost so_far = bytes@.take(i as int);
        let ghost more = bytes@.take(i + 1);
        proof {
            assert(more.drop_last() =~= so_far);
            assert(more.last() == bytes@[i as int]);
            assert(whole.push(current).drop_last() =~= whole);
        }
        if bytes[i] == 10 {
            kinds.push(kind_of_line(slice_subrange(bytes, start, i)));
            start = i + 1;
            proof {
                assert(bytes@.subrange(i + 1, i + 1) =~= Seq::<u8>::empty());
                assert(kinds@ =~= whole.push(current).map_values(kind));
                whole = whole.push(current);
            }
        } else {
            assert(bytes@.subrange(start as int, i + 1) =~= current.push(bytes@[i as int]));
        }
        i = i + 1;
    }
    let ghost last = bytes@.subrange(start as int, i as int);
    kinds.push(kind_of_line(slice_subrange(bytes, start, i)));
    proof {
        assert(bytes@.take(i as int) =~= bytes@);
        assert(kinds@ =~= whole.push(last).map_values(kind));
    }
    kinds
}

/// The tally of one stream.
#[derive(Debug, PartialEq, Eq, Clone, Copy)]
pub struct StreamTally {
    /// No event has come yet.
    pub first: bool,
    pub token_count: u64,
}

impl StreamTally {
    /// A stream of which nothing has come yet.
    pub fn new() -> (t: Self)
        ensures
            t == (StreamTally { first: true, token_count: 0 }),
    {
        StreamTally { first: true, token_count: 0 }
    }

    /// The tally after a run of lines.
    pub open spec fn after(self, kinds: Seq<LineKind>) -> StreamTally {
        StreamTally {
            first: self.first && !LineKind::any_text(kinds),
            token_count: (self.token_count + LineKind::tokens_in(kinds)) as u64,
        }
    }

    /// Take in a chunk. Returns true if the first event of the stream is in it.
    /// Lines after the end of the stream do not count.
    pub fn on_chunk(&mut self, bytes: &[u8]) -> (first_event: bool)
        requires
            old(self).token_count + bytes@.len() < u64::MAX,
        ensures
            *final(self) == old(self).after(LineKind::of_chunk(bytes@)),
            first_event == (old(self).first && LineKind::any_text(LineKind::of_chunk(bytes@))),
    {
        let kinds = kinds_of_chunk(bytes);
        self.on_lines(&kinds)
    }

    /// Take in lines of which the kinds are known. Returns true if the first
    /// event of the stream is among them.
    pub fn on_lines(&mut self, kinds: &Vec<LineKind>) -> (first_event: bool)
        requires
            old(self).token_count + kinds@.len() <= u64::MAX,
        ensures
            *final(self) == old(self).after(kinds@),
            first_event == (old(self).first && LineKind::any_text(kinds@)),
    {
        let mut first_event = false;
        let mut i: usize = 0;
        assert(kinds@.skip(0) =~= kinds@);
        while i < kinds.len()
            invariant
                i <= kinds@.len(),
                old(self).token_count + kinds@.len() <= u64::MAX,
                self.token_count <= old(self).token_count + i,
                self.token_count + LineKind::tokens_in(kinds@.skip(i as int)) == old(
                    self,
                ).token_count + LineKind::tokens_in(kinds@),
                self.first == (old(self).first && !LineKind::any_text(kinds@.take(i as int))),
                first_event == (old(self).first && LineKind::any_text(kinds@.take(i as int))),
            decreases kinds@.len() - i,
        {
            proof {
                assert(kinds@.skip(i as int).skip(1) =~= kinds@.skip(i + 1));
                assert(kinds@.skip(i as int)[0] == kinds@[i as int]);
                lemma_any_text_take(kinds@, i as int);
            }
            match kinds[i] {
                LineKind::Blank => {},
                LineKind::Token => {
                    if self.first {
                        first_event = true;
                        self.first = false;
                    }
                    self.token_count = self.token_count + 1;
                },
                LineKind::Done => {
                    if self.first {
                        first_event = true;
                        self.first = false;
                    }
                    assert(!(kinds@[i as int] is Blank));
                    return first_event;
                },
                LineKind::Garbage => {
                    if self.first {
                        first_event = true;
                        self.first = false;
                    }
                },
            }
            i = i + 1;
        }
        assert(kinds@.take(i as int) =~= kinds@);
        first_event
    }
}

proof fn lemma_any_text_take(kinds: Seq<LineKind>, i: int)
    requires
        0 <= i < kinds.len(),
    ensures
        LineKind::any_text(kinds.take(i + 1)) <==> LineKind::any_text(kinds.take(i)) || !(
        kinds[i] is Blank),
{
    let more = kinds.take(i + 1);
    assert(more[i] == kinds[i]);
    if LineKind::any_text(kinds.take(i)) {
        let j = choose|j: int| 0 <= j < i && !((#[trigger] kinds.take(i)[j]) is Blank);
        assert(more[j] == kinds.take(i)[j]);
    }
    if LineKind::any_text(more) {
        let j = choose|j: int| 0 <= j < i + 1 && !((#[trigger] more[j]) is Blank);
        if j < i {
            assert(kinds.take(i)[j] == more[j]);
        }
    }
}

/// A chunk has one line more than it has newlines.
pub proof fn law_one_line_per_newline(bytes: Seq<u8>)
    ensures
        LineKind::lines(bytes).len() == bytes.filter(|b: u8| b == 10).len() + 1,
    decreases bytes.len(),
{
    reveal(Seq::filter);
    if bytes.len() > 0 {
        law_one_line_per_newline(bytes.drop_last());
    }
}

/// No stream counts more tokens than it has lines, and lines after the end count
/// for nothing.
pub proof fn law_end_stops_the_count(before: Seq<LineKind>, after: Seq<LineKind>)
    ensures
        LineKind::tokens_in(before) <= before.len(),
        LineKind::tokens_in(before.push(LineKind::Done) + after) == LineKind::tokens_in(before),
    decreases before.len(),
{
    let all = before.push(LineKind::Done) + after;
    if before.len() > 0 {
        law_end_stops_the_count(before.skip(1), after);
        assert(all.skip(1) =~= before.skip(1).push(LineKind::Done) + after);
        assert(all[0] == before[0]);
    } else {
        assert(all[0] == LineKind::Done);
    }
}

/// What a line is, by its text and by what its `done` member says: nothing is
/// blank, no JSON is garbage, a `done` of true ends the stream, and any other JSON
/// is a token.
pub proof fn law_line_kinds(line: Seq<u8>)
    ensures
        LineKind::of_line(line) is Blank <==> line.len() == 0,
        line.len() > 0 ==> {
            let said = json_flag_of(line, "done"@);
            &&& LineKind::of_line(line) is Garbage <==> said is None
            &&& LineKind::of_line(line) is Done <==> said == Some(Some(true))
            &&& LineKind::of_line(line) is Token <==> said == Some(Some(false)) || said == Some(
                None::<bool>,
            )
        },
{
    if line.len() > 0 {
        let said = json_flag_of(line, "done"@);
        if let Some(done) = said {
            if let Some(b) = done {
                assert(said == Some(Some(b)));
                assert(b == true || b == false);
            } else {
                assert(said == Some(None::<bool>));
            }
        }
    }
}

/// Lines put back together with newlines between them.
pub open spec fn joined(lines: Seq<Seq<u8>>) -> Seq<u8>
    decreases lines.len(),
{
    if lines.len() == 0 {
        Seq::empty()
    } else if lines.len() == 1 {
        lines[0]
    } else {
        joined(lines.drop_last()).push(10) + lines.last()
    }
}

/// Splitting loses nothing: the lines of a chunk put back together are the chunk,
/// and no line has a newline in it. The kinds of a chunk are those of its lines.
pub proof fn law_lines_make_up_the_chunk(bytes: Seq<u8>)
    ensures
        joined(LineKind::lines(bytes)) == bytes,
        LineKind::lines(bytes).len() > 0,
        forall|i: int|
            0 <= i < LineKind::lines(bytes).len() ==> !(
            #[trigger] LineKind::lines(bytes)[i]).contains(10),
        LineKind::of_chunk(bytes).len() == LineKind::lines(bytes).len(),
        forall|i: int|
            0 <= i < LineKind::lines(bytes).len() ==> #[trigger] LineKind::of_chunk(bytes)[i]
                == LineKind::of_line(LineKind::lines(bytes)[i]),
    decreases bytes.len(),
{
    let lines = LineKind::lines(bytes);
    if bytes.len() > 0 {
        let rest = bytes.drop_last();
        let b = bytes.last();
        let before = LineKind::lines(rest);
        law_lines_make_up_the_chunk(rest);
        assert(bytes =~= rest.push(b));
        if b == 10 {
            assert(lines.drop_last() =~= before);
            assert(joined(lines) =~= rest.push(b));
        } else {
            let n = before.len() - 1;
            assert(lines.drop_last() =~= before.drop_last());
            assert(lines.last() == before.last().push(b));
            assert(joined(lines) =~= joined(before).push(b));
            assert forall|i: int| 0 <= i < lines.len() implies !(#[trigger] lines[i]).contains(
                10,
            ) by {
                if i < n {
                    assert(lines[i] == before[i]);
                } else {
                    assert(!before[n].contains(10));
                    if lines[i].contains(10) {
                        let k = choose|k: int| 0 <= k < lines[i].len() && lines[i][k] == 10;
                        assert(before[n][k] == 10);
                    }
                }
            }
        }
    } else {
        assert(joined(lines) =~= bytes);
    }
}

/// Of lines without an end, every token counts once and nothing else does.
pub proof fn law_tokens_are_counted(kinds: Seq<LineKind>)
    requires
        forall|i: int| 0 <= i < kinds.len() ==> !((#[trigger] kinds[i]) is Done),
    ensures
        LineKind::tokens_in(kinds) == kinds.filter(|k: LineKind| k is Token).len(),
    decreases kinds.len(),
{
    let is_token = |k: LineKind| k is Token;
    if kinds.len() == 0 {
        reveal(Seq::filter);
    } else {
        let one = seq![kinds[0]];
        let rest = kinds.skip(1);
        assert forall|i: int| 0 <= i < rest.len() implies !((#[trigger] rest[i]) is Done) by {
            assert(rest[i] == kinds[i + 1]);
        }
        law_tokens_are_counted(rest);
        assert(kinds =~= one + rest);
        Seq::filter_distributes_over_add(one, rest, is_token);
        if is_token(one[0]) {
            crate::sched_lemmas::lemma_filter_all(one, is_token);
        } else {
            crate::loop_laws::lemma_filter_none(one, is_token);
        }
    }
}

/// A tally after a run of lines: the first event has come if some line had text in
/// it, and the count has grown by the tokens up to the end of the stream.
pub proof fn law_tally_counts_tokens(t: StreamTally, before: Seq<LineKind>, after: Seq<LineKind>)
    requires
        t.token_count + before.len() <= u64::MAX,
        forall|i: int| 0 <= i < before.len() ==> !((#[trigger] before[i]) is Done),
    ensures
        t.after(before).token_count == t.token_count + before.filter(
            |k: LineKind| k is Token,
        ).len(),
        t.after(before.push(LineKind::Done) + after).token_count == t.token_count + before.filter(
            |k: LineKind| k is Token,
        ).len(),
        t.after(before).first <==> t.first && forall|i: int|
            0 <= i < before.len() ==> (#[trigger] before[i]) is Blank,
        !t.after(before.push(LineKind::Done) + after).first,
{
    law_tokens_are_counted(before);
    law_end_stops_the_count(before, after);
    let all = before.push(LineKind::Done) + after;
    assert(!(all[before.len() as int] is Blank));
    assert(LineKind::any_text(all));
}

} // verus!
