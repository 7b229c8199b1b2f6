//! Pointers that lead in a circle: the decoder gives up on them.

use crate::domain_name::{
    follow_pointer, pointer_chain_error, pointer_offset, read_labels, MAX_LABEL_LEN, POINTER_TAG,
};
use crate::error::ErrorView;
use vstd::prelude::*;

verus! {

/// The offset that the pointer whose first byte stands in `data` at `at`
/// leads to in `message`; none where the pointer lacks its second byte or
/// leads out of the message.
pub open spec fn pointer_jump(data: Seq<u8>, at: int, message: Seq<u8>) -> Option<int> {
    if at + 1 >= data.len() {
        None
    } else if pointer_offset(data[at], data[at + 1]) >= message.len() {
        None
    } else {
        Some(pointer_offset(data[at], data[at + 1]))
    }
}

/// The offset in `message` of the first pointer that reading a name from
/// `data` at `pos` follows; none where the name ends, or cannot be read,
/// before a pointer is followed.
pub open spec fn first_jump(data: Seq<u8>, pos: int, message: Seq<u8>) -> Option<int>
    decreases data.len() - pos,
{
    if pos < 0 || pos >= data.len() {
        None
    } else if data[pos] == 0 {
        None
    } else if data[pos] >= POINTER_TAG {
        pointer_jump(data, pos, message)
    } else if data[pos] > MAX_LABEL_LEN {
        None
    } else {
        let len = data[pos] as int;
        let end = if pos + 1 + len <= data.len() {
            pos + 1 + len
        } else {
            data.len() as int
        };
        if len >= 2 && pos + len - 1 < data.len() && data[pos + len - 1] >= POINTER_TAG {
            pointer_jump(data, pos + len - 1, message)
        } else {
            first_jump(data, end, message)
        }
    }
}

/// The offset that reading a name in `message` from `start` has reached
/// after it has followed `count` pointers; none where it does not follow
/// that many.
pub open spec fn jump_path(message: Seq<u8>, start: int, count: nat) -> Option<int>
    decreases count,
{
    if count == 0 {
        Some(start)
    } else {
        match jump_path(message, start, (count - 1) as nat) {
            Some(at) => first_jump(message, at, message),
            None => None,
        }
    }
}

/// Whether reading gave the error for too many pointers.
pub open spec fn gave_up(read: Result<(Seq<Seq<u8>>, int), ErrorView>) -> bool {
    read == Err::<(Seq<Seq<u8>>, int), ErrorView>(pointer_chain_error())
}

/// Reading a name that follows a pointer gives up where no pointer may be
/// followed any more, and where reading from the offset of the pointer on
/// gives up.
pub proof fn lemma_first_jump(data: Seq<u8>, pos: int, message: Seq<u8>, jumps: nat)
    requires
        first_jump(data, pos, message) is Some,
        jumps > 0 ==> gave_up(
            read_labels(
                message,
                first_jump(data, pos, message)->0,
                Some(message),
                (jumps - 1) as nat,
            ),
        ),
    ensures
        gave_up(read_labels(data, pos, Some(message), jumps)),
    decreases data.len() - pos,
{
    if data[pos] >= POINTER_TAG {
        assert(gave_up(follow_pointer(data, pos, message, jumps, pos + 2)));
    } else {
        let len = data[pos] as int;
        let end = if pos + 1 + len <= data.len() {
            pos + 1 + len
        } else {
            data.len() as int
        };
        if len >= 2 && pos + len - 1 < data.len() && data[pos + len - 1] >= POINTER_TAG {
            assert(gave_up(follow_pointer(data, pos + len - 1, message, jumps, pos + 1 + len)));
        } else {
            lemma_first_jump(data, end, message, jumps);
        }
    }
}

/// A path that is followed for `count` pointers is followed for fewer.
pub proof fn lemma_path_before(message: Seq<u8>, start: int, count: nat, fewer: nat)
    requires
        jump_path(message, start, count) is Some,
        fewer <= count,
    ensures
        jump_path(message, start, fewer) is Some,
    decreases count,
{
    if fewer < count {
        lemma_path_before(message, start, (count - 1) as nat, fewer);
    }
}

/// A path that is back at its start after `period` pointers goes on as it
/// began.
pub proof fn lemma_path_repeats(message: Seq<u8>, start: int, period: nat, count: nat)
    requires
        jump_path(message, start, period) == Some(start),
    ensures
        jump_path(message, start, period + count) == jump_path(message, start, count),
    decreases count,
{
    if count > 0 {
        lemma_path_repeats(message, start, period, (count - 1) as nat);
        assert((period + count - 1) as nat == period + (count - 1) as nat);
    }
}

/// A path that is back at its start after some pointers never ends.
pub proof fn lemma_path_endless(message: Seq<u8>, start: int, period: nat, count: nat)
    requires
        period >= 1,
        jump_path(message, start, period) == Some(start),
    ensures
        jump_path(message, start, count) is Some,
    decreases count,
{
    if count <= period {
        lemma_path_before(message, start, period, count);
    } else {
        lemma_path_endless(message, start, period, (count - period) as nat);
        lemma_path_repeats(message, start, period, (count - period) as nat);
        assert(period + (count - period) as nat == count);
    }
}

proof fn lemma_cycle_point(message: Seq<u8>, start: int, period: nat, count: nat, jumps: nat)
    requires
        period >= 1,
        jump_path(message, start, period) == Some(start),
    ensures
        jump_path(message, start, count) is Some,
        gave_up(read_labels(message, jump_path(message, start, count)->0, Some(message), jumps)),
    decreases jumps,
{
    lemma_path_endless(message, start, period, count);
    lemma_path_endless(message, start, period, count + 1);
    let at = jump_path(message, start, count)->0;
    assert(jump_path(message, start, (count + 1) as nat) == first_jump(message, at, message));
    if jumps > 0 {
        lemma_cycle_point(message, start, period, count + 1, (jumps - 1) as nat);
    }
    lemma_first_jump(message, at, message, jumps);
}

/// A name whose pointers lead back to where it starts cannot be read: however
/// many pointers the decoder may follow, it gives up with the error for too
/// many pointers.
pub proof fn lemma_pointer_cycle(message: Seq<u8>, start: int, period: nat, jumps: nat)
    requires
        period >= 1,
        jump_path(message, start, period) == Some(start),
    ensures
        gave_up(read_labels(message, start, Some(message), jumps)),
{
    lemma_cycle_point(message, start, period, 0, jumps);
}

} // verus!
