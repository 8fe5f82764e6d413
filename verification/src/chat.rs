//! What a chat front end needs around the shell: which lines are meant for
//! it, and how a result is told to the user who asked.

use vstd::prelude::*;
use crate::sh::{message_of, outcome, Error, Failure};
use crate::text::{join, joined};

verus! {

/// `line` without the leader at its front, however often the leader stands
/// there. An empty leader takes nothing away.
pub open spec fn without_leader(line: Seq<char>, leader: Seq<char>) -> Seq<char>
    decreases line.len(),
{
    if leader.len() > 0 && leader.is_prefix_of(line) {
        without_leader(line.skip(leader.len() as int), leader)
    } else {
        line
    }
}

/// Tells whether `leader` stands in `line` at position `at`.
fn leads_at(line: &str, len: usize, at: usize, leader: &str, leader_len: usize) -> (leads: bool)
    requires
        len == line@.len(),
        leader_len == leader@.len(),
        at <= len,
    ensures
        leads == leader@.is_prefix_of(line@.skip(at as int)),
{
    let ghost rest = line@.skip(at as int);
    if leader_len > len - at {
        return false;
    }
    let mut i: usize = 0;
    while i < leader_len
        invariant
            i <= leader_len,
            len == line@.len(),
            leader_len == leader@.len(),
            at + leader_len <= len,
            rest == line@.skip(at as int),
            forall|k: int| 0 <= k < i ==> rest[k] == leader@[k],
        decreases leader_len - i,
    {
        assert(rest[i as int] == line@[at + i]);
        if line.get_char(at + i) != leader.get_char(i) {
            assert(rest.subrange(0, leader_len as int)[i as int] != leader@[i as int]);
            return false;
        }
        i += 1;
    }
    assert(leader@ =~= rest.subrange(0, leader_len as int));
    true
}

/// Tells whether `line` is meant for the shell: whether it begins with `leader`.
pub fn addressed(line: &str, leader: &str) -> (meant: bool)
    ensures
        meant == leader@.is_prefix_of(line@),
{
    assert(line@.skip(0) =~= line@);
    leads_at(line, line.unicode_len(), 0, leader, leader.unicode_len())
}

/// Takes the leader off the front of `line`, as often as it stands there.
pub fn strip_leader<'a>(line: &'a str, leader: &str) -> (rest: &'a str)
    ensures
        rest@ == without_leader(line@, leader@),
{
    let len = line.unicode_len();
    let leader_len = leader.unicode_len();
    if leader_len == 0 {
        return line;
    }
    let mut at: usize = 0;
    assert(line@.skip(0) =~= line@);
    while leads_at(line, len, at, leader, leader_len)
        invariant
            at <= len,
            len == line@.len(),
            0 < leader_len == leader@.len(),
            without_leader(line@, leader@) == without_leader(line@.skip(at as int), leader@),
        decreases len - at,
    {
        assert(line@.skip(at as int).skip(leader_len as int) =~= line@.skip(at + leader_len));
        at += leader_len;
    }
    assert(line@.subrange(at as int, len as int) =~= line@.skip(at as int));
    line.substring_char(at, len)
}

/// What the user `nick` is told of a result: after the name a dollar sign and
/// the output lines joined by a bar between spaces, or an exclamation mark
/// and the message of the failure.
pub open spec fn reply_text(nick: Seq<char>, result: Result<Seq<Seq<char>>, Failure>) -> Seq<char> {
    match result {
        Ok(lines) => nick + "$ "@ + joined(lines, " | "@),
        Err(failure) => nick + "! "@ + message_of(failure),
    }
}

/// Words the reply to the user `nick` who asked for `result`.
pub fn reply(nick: &str, result: &Result<Vec<String>, Error>) -> (text: String)
    ensures
        text@ == reply_text(nick@, outcome(*result)),
{
    let mut text = String::from_str(nick);
    match result {
        Ok(lines) => {
            text.append("$ ");
            text.append(join(lines.as_slice(), " | ").as_str());
        },
        Err(error) => {
            text.append("! ");
            text.append(error.to_string().as_str());
        },
    }
    text
}

} // verus!
