//! The checkpoint log as bytes: one record per line, the simulation time,
//! a full stop and a space, then the serialized state. A restart reads the
//! payload of the last line.

use vstd::prelude::*;
use vstd::slice::slice_subrange;

verus! {

/// The byte that ends a line.
pub const NEWLINE: u8 = 10;

/// The byte that may stand before a line's end and is then not part of the line.
pub const CARRIAGE_RETURN: u8 = 13;

/// First byte of the separator between time and state.
pub const FULL_STOP: u8 = 46;

/// Second byte of the separator between time and state.
pub const SPACE: u8 = 32;

/// Whether the separator, a full stop and a space, begins at index `i` of `line`.
pub open spec fn separator_at(line: Seq<u8>, i: int) -> bool {
    &&& 0 <= i
    &&& i + 2 <= line.len()
    &&& line[i] == FULL_STOP
    &&& line[i + 1] == SPACE
}

/// Where the payload of a line begins: behind its last separator, or at
/// the line's start where it has none.
pub open spec fn payload_start(line: Seq<u8>) -> int
    decreases line.len(),
{
    if line.len() < 2 {
        0
    } else if separator_at(line, line.len() - 2) {
        line.len() as int
    } else {
        payload_start(line.drop_last())
    }
}

/// The payload of a line: what follows its last separator.
pub open spec fn payload(line: Seq<u8>) -> Seq<u8> {
    line.subrange(payload_start(line), line.len() as int)
}

/// The payload begins within the line, directly behind a separator unless
/// it begins at the start, and no separator begins later than that one.
pub proof fn lemma_payload_start(line: Seq<u8>)
    ensures
        0 <= payload_start(line) <= line.len(),
        payload_start(line) != 0 ==> separator_at(line, payload_start(line) - 2),
        forall|i: int| payload_start(line) - 2 < i ==> !separator_at(line, i),
        payload_start(line) == 0 ==> forall|i: int| !separator_at(line, i),
    decreases line.len(),
{
    if line.len() >= 2 && !separator_at(line, line.len() - 2) {
        let front = line.drop_last();
        lemma_payload_start(front);
        assert forall|i: int| payload_start(line) - 2 < i implies !separator_at(line, i) by {
            if i + 2 < line.len() {
                assert(separator_at(line, i) == separator_at(front, i));
            }
        }
        if payload_start(line) == 0 {
            assert forall|i: int| !separator_at(line, i) by {
                if i + 2 < line.len() {
                    assert(separator_at(line, i) == separator_at(front, i));
                }
            }
        } else {
            assert(separator_at(front, payload_start(line) - 2));
        }
    }
}

/// Index at which the payload of `line` begins.
pub fn find_payload(line: &[u8]) -> (start: usize)
    ensures
        start == payload_start(line@),
{
    let mut end: usize = line.len();
    proof {
        assert(line@.take(end as int) =~= line@);
    }
    while end >= 2
        invariant
            end <= line.len(),
            payload_start(line@) == payload_start(line@.take(end as int)),
        decreases end,
    {
        proof {
            let part = line@.take(end as int);
            assert(part[end - 2] == line@[end - 2]);
            assert(part[end - 1] == line@[end - 1]);
            assert(part.drop_last() =~= line@.take(end - 1));
        }
        if line[end - 2] == FULL_STOP && line[end - 1] == SPACE {
            proof {
                assert(line@.take(line@.len() as int) =~= line@);
            }
            return end;
        }
        end -= 1;
    }
    0
}

/// Index behind the last newline of `text`, or 0 where it has none.
pub open spec fn line_start(text: Seq<u8>) -> int
    decreases text.len(),
{
    if text.len() == 0 {
        0
    } else if text.last() == NEWLINE {
        text.len() as int
    } else {
        line_start(text.drop_last())
    }
}

/// The text without the newline that ends it, if one does.
pub open spec fn without_final_newline(text: Seq<u8>) -> Seq<u8> {
    if text.len() > 0 && text.last() == NEWLINE {
        text.drop_last()
    } else {
        text
    }
}

/// The last line of a text: `None` for the empty text; else what stands
/// between the last newline but the final one and the text's end, without
/// the final newline and without a carriage return before that newline.
pub open spec fn last_line(text: Seq<u8>) -> Option<Seq<u8>> {
    if text.len() == 0 {
        None
    } else {
        let body = without_final_newline(text);
        let line = body.subrange(line_start(body), body.len() as int);
        if body.len() < text.len() && line.len() > 0 && line.last() == CARRIAGE_RETURN {
            Some(line.drop_last())
        } else {
            Some(line)
        }
    }
}

/// The last line begins within the text, behind a newline unless at the
/// start, and holds no newline.
pub proof fn lemma_line_start(text: Seq<u8>)
    ensures
        0 <= line_start(text) <= text.len(),
        line_start(text) != 0 ==> text[line_start(text) - 1] == NEWLINE,
        forall|i: int| line_start(text) <= i < text.len() ==> text[i] != NEWLINE,
    decreases text.len(),
{
    if text.len() > 0 && text.last() != NEWLINE {
        let front = text.drop_last();
        lemma_line_start(front);
        assert forall|i: int| line_start(text) <= i < text.len() implies text[i] != NEWLINE by {
            if i < front.len() {
                assert(front[i] == text[i]);
            }
        }
    }
}

/// Index at which the last line of `text` begins.
fn find_line_start(text: &[u8]) -> (start: usize)
    ensures
        start == line_start(text@),
{
    let mut end: usize = text.len();
    proof {
        assert(text@.take(end as int) =~= text@);
    }
    while end > 0
        invariant
            end <= text.len(),
            line_start(text@) == line_start(text@.take(end as int)),
        decreases end,
    {
        proof {
            let part = text@.take(end as int);
            assert(part.last() == text@[end - 1]);
            assert(part.drop_last() =~= text@.take(end - 1));
        }
        if text[end - 1] == NEWLINE {
            proof {
                assert(text@.take(text@.len() as int) =~= text@);
            }
            return end;
        }
        end -= 1;
    }
    0
}

/// The last line of the log, if it has one.
pub fn last_line_of(text: &[u8]) -> (line: Option<&[u8]>)
    ensures
        line.is_some() == last_line(text@).is_some(),
        line.is_some() ==> line.unwrap()@ == last_line(text@).unwrap(),
{
    let len: usize = text.len();
    if len == 0 {
        return None;
    }
    let ended: bool = text[len - 1] == NEWLINE;
    let body: &[u8] = if ended {
        slice_subrange(text, 0, len - 1)
    } else {
        text
    };
    proof {
        assert(text@.subrange(0, len - 1) =~= text@.drop_last());
        assert(body@ == without_final_newline(text@));
    }
    let start: usize = find_line_start(body);
    proof {
        lemma_line_start(body@);
    }
    let mut end: usize = body.len();
    if ended && start < end && body[end - 1] == CARRIAGE_RETURN {
        end -= 1;
    }
    let line: &[u8] = slice_subrange(body, start, end);
    proof {
        let whole = body@.subrange(start as int, body@.len() as int);
        if end < body@.len() {
            assert(whole.drop_last() =~= line@);
        }
    }
    Some(line)
}

/// Why a log holds nothing to restart from.
#[derive(Debug, Clone, Copy, PartialEq, Eq, Structural)]
pub enum RestoreError {
    /// The log is empty: it has no line.
    NoRecord,
    /// Nothing follows the last separator of the last line.
    NoPayload,
}

/// What a restart reads from the log: the payload of the last line, or
/// the reason why there is none.
pub open spec fn restored(text: Seq<u8>) -> Result<Seq<u8>, RestoreError> {
    match last_line(text) {
        None => Err(RestoreError::NoRecord),
        Some(line) => if payload(line).len() == 0 {
            Err(RestoreError::NoPayload)
        } else {
            Ok(payload(line))
        },
    }
}

/// The serialized state from which to restart, if the log holds one.
pub fn restore_from(text: &[u8]) -> (state: Result<&[u8], RestoreError>)
    ensures
        match restored(text@) {
            Ok(bytes) => state.is_ok() && state.unwrap()@ == bytes,
            Err(reason) => state == Err::<&[u8], RestoreError>(reason),
        },
{
    match last_line_of(text) {
        None => Err(RestoreError::NoRecord),
        Some(line) => {
            let start: usize = find_payload(line);
            proof {
                lemma_payload_start(line@);
            }
            if start == line.len() {
                Err(RestoreError::NoPayload)
            } else {
                Ok(slice_subrange(line, start, line.len()))
            }
        },
    }
}

/// How a restart began.
#[derive(Debug, Clone, Copy, PartialEq, Eq, Structural)]
pub enum Restart {
    /// With the state of the last record of the log.
    Restored,
    /// With a fresh state: the log has no line.
    NoRecord,
    /// With a fresh state: the last line has no payload.
    NoPayload,
    /// With a fresh state: the payload of the last line is no state.
    Malformed,
}

/// The state with which a restart begins, and how it began. `read` is what
/// the log gave: the reason why it holds no payload, or what parsing the
/// payload gave, `None` where it is no state. Only a parsed state is
/// taken up; on every failure the restart begins with `fresh`.
pub fn resume<S>(read: Result<Option<S>, RestoreError>, fresh: S) -> (begun: (S, Restart))
    ensures
        match read {
            Ok(Some(state)) => begun == (state, Restart::Restored),
            Ok(None) => begun == (fresh, Restart::Malformed),
            Err(RestoreError::NoRecord) => begun == (fresh, Restart::NoRecord),
            Err(RestoreError::NoPayload) => begun == (fresh, Restart::NoPayload),
        },
{
    match read {
        Ok(Some(state)) => (state, Restart::Restored),
        Ok(None) => (fresh, Restart::Malformed),
        Err(RestoreError::NoRecord) => (fresh, Restart::NoRecord),
        Err(RestoreError::NoPayload) => (fresh, Restart::NoPayload),
    }
}

/// One record of the log: the time, the separator, the state, a newline.
pub open spec fn record(time: Seq<u8>, state: Seq<u8>) -> Seq<u8> {
    time + seq![FULL_STOP, SPACE] + state + seq![NEWLINE]
}

/// Appends the bytes of `source` to `target`.
fn append(target: &mut Vec<u8>, source: &[u8])
    ensures
        final(target)@ == old(target)@ + source@,
{
    let ghost before = target@;
    let mut i: usize = 0;
    while i < source.len()
        invariant
            i <= source.len(),
            target@ == before + source@.take(i as int),
        decreases source.len() - i,
    {
        target.push(source[i]);
        proof {
            assert(source@.take(i + 1) =~= source@.take(i as int).push(source@[i as int]));
            assert(target@ =~= before + source@.take(i + 1));
        }
        i += 1;
    }
    proof {
        assert(source@.take(i as int) =~= source@);
    }
}

/// The record that a checkpoint appends to the log.
pub fn sync(time: &[u8], state: &[u8]) -> (line: Vec<u8>)
    ensures
        line@ == record(time@, state@),
{
    let mut line: Vec<u8> = Vec::new();
    append(&mut line, time);
    line.push(FULL_STOP);
    line.push(SPACE);
    append(&mut line, state);
    line.push(NEWLINE);
    proof {
        assert(line@ =~= record(time@, state@));
    }
    line
}

/// Bytes without a newline, put behind a text, do not move the start of
/// its last line.
proof fn lemma_line_start_extend(text: Seq<u8>, more: Seq<u8>)
    requires
        forall|i: int| 0 <= i < more.len() ==> more[i] != NEWLINE,
    ensures
        line_start(text + more) == line_start(text),
    decreases more.len(),
{
    if more.len() == 0 {
        assert(text + more =~= text);
    } else {
        let whole = text + more;
        assert(whole.last() == more[more.len() - 1]);
        assert(whole.drop_last() =~= text + more.drop_last());
        lemma_line_start_extend(text, more.drop_last());
    }
}

/// Behind a separator, bytes that hold no separator are the payload.
proof fn lemma_payload_start_extend(front: Seq<u8>, state: Seq<u8>)
    requires
        forall|i: int| !separator_at(state, i),
    ensures
        payload_start(front + seq![FULL_STOP, SPACE] + state) == front.len() + 2,
    decreases state.len(),
{
    let line = front + seq![FULL_STOP, SPACE] + state;
    let n = line.len() as int;
    if state.len() == 0 {
        assert(separator_at(line, n - 2));
    } else {
        let shorter = state.drop_last();
        if state.len() >= 2 {
            assert(!separator_at(state, state.len() - 2));
            assert(line[n - 2] == state[state.len() - 2]);
            assert(line[n - 1] == state[state.len() - 1]);
        } else {
            assert(line[n - 2] == SPACE);
        }
        assert(!separator_at(line, n - 2));
        assert forall|i: int| !separator_at(shorter, i) by {
            if separator_at(shorter, i) {
                assert(separator_at(state, i));
            }
        }
        assert(line.drop_last() =~= front + seq![FULL_STOP, SPACE] + shorter);
        lemma_payload_start_extend(front, shorter);
    }
}

/// A restart from a log that ends with a record reads back the state of
/// that record, whatever stands before it in the log, provided the time
/// holds no newline and the state is not empty and holds no newline, no
/// carriage return and no separator.
pub proof fn lemma_restore_record(log: Seq<u8>, time: Seq<u8>, state: Seq<u8>)
    requires
        forall|i: int| 0 <= i < time.len() ==> time[i] != NEWLINE,
        forall|i: int| 0 <= i < state.len() ==> state[i] != NEWLINE && state[i] != CARRIAGE_RETURN,
        forall|i: int| !separator_at(state, i),
        state.len() > 0,
    ensures
        restored(log + record(time, state)) == Ok::<Seq<u8>, RestoreError>(state),
{
    let text = log + record(time, state);
    let tail = time + seq![FULL_STOP, SPACE] + state;
    let body = log + tail;
    assert(text.last() == NEWLINE);
    assert(text.drop_last() =~= body);
    assert(without_final_newline(text) == body);
    lemma_line_start_extend(log, tail);
    lemma_line_start(log);
    let start = line_start(log);
    let front = log.subrange(start, log.len() as int) + time;
    let line = body.subrange(start, body.len() as int);
    assert(line =~= front + seq![FULL_STOP, SPACE] + state);
    assert(line.last() == state[state.len() - 1]);
    assert(last_line(text) == Some(line));
    lemma_payload_start_extend(front, state);
    assert(payload(line) =~= state);
}

} // verus!
