//! The rules of a member of a replicated shard.
use crate::error::{Error, ErrorView, Result};
use crate::parse::{law_numerals_are_read_back, numeral, trim, trimmed};
use crate::raft_storage::NodeId;
use crate::server::{constant_time_equal, status_code};
use crate::text::{decimal, decimal_text, join};
use vstd::prelude::*;
use vstd::string::*;
use vstd::utf8::*;

verus! {

/// The most client operations at a time.
pub const MAX_IN_FLIGHT_CLIENT_OPERATIONS: usize = 256;

/// The longest request of a client.
pub const MAX_CLIENT_BODY_BYTES: usize = 64 * 1024 * 1024;

/// Whether a token can be asked of other members.
pub fn check_token(token: &str) -> (result: Result<()>)
    ensures
        token@.len() > 0 ==> result is Ok,
        token@.len() == 0 ==> result is Err && result->Err_0@ == ErrorView::InvalidConfig(
            "Raft peer token must not be empty"@,
        ),
{
    if token.is_empty() {
        return Err(Error::InvalidConfig("Raft peer token must not be empty"));
    }
    Ok(())
}

/// Whether a request bears the token of the shard.
pub fn authorized(header: Option<&str>, token: &str) -> (is: bool)
    ensures
        is == match header {
            Some(text) => text@ == token@,
            None => false,
        },
{
    match header {
        None => false,
        Some(text) => {
            proof {
                if encode_utf8(text@) == encode_utf8(token@) {
                    crate::text::lemma_encoding_injective(text@, token@);
                }
            }
            constant_time_equal(text.as_bytes(), token.as_bytes())
        },
    }
}

/// The HTTP status that an error of a member is answered with.
pub open spec fn member_status(error: ErrorView) -> u16 {
    match error {
        ErrorView::InvalidConfig(_) => 400,
        ErrorView::InvalidConfiguration(_) => 400,
        ErrorView::InvalidDimension { .. } => 400,
        ErrorView::InvalidQuery(_) => 400,
        ErrorView::InvalidVector(_) => 400,
        ErrorView::ResourceExhausted(_) => 429,
        _ => 503,
    }
}

/// The HTTP status that an error of a member is answered with.
pub fn api_error(error: &Error) -> (status: u16)
    ensures
        status == member_status(error@),
{
    match error {
        Error::InvalidConfig(_) => 400,
        Error::InvalidConfiguration(_) => 400,
        Error::InvalidDimension { .. } => 400,
        Error::InvalidQuery(_) => 400,
        Error::InvalidVector(_) => 400,
        Error::ResourceExhausted(_) => 429,
        _ => 503,
    }
}

/// Why text is no member's number: the text of the error of `str::parse`.
pub uninterp spec fn parse_complaint(text: Seq<char>) -> Seq<char>;

/// The member that text names: a numeral, with the value of a `u64`.
pub open spec fn named_node(text: Seq<char>) -> core::result::Result<NodeId, Seq<char>> {
    match numeral(text) {
        Some(n) if n <= u64::MAX => Ok(n as NodeId),
        _ => Err(parse_complaint(text)),
    }
}

/// Calls [`str::parse`] for a `u64`: it takes digits, at least one, behind an optional
/// plus sign, as long as the number is not too large. The text of its error depends on
/// the text that it was given and is named, not described.
#[verifier::external_body]
fn parse_node_id(text: &str) -> (node: core::result::Result<NodeId, String>)
    ensures
        node matches Ok(id) ==> numeral(text@) == Some(id as nat),
        node matches Err(reason) ==> {
            &&& numeral(text@) matches Some(n) ==> n > u64::MAX
            &&& reason@ == parse_complaint(text@)
        },
{
    text.parse::<u64>().map_err(|error| error.to_string())
}

/// What holding a stored number against a member comes to.
pub open spec fn node_verdict(
    stored: core::result::Result<NodeId, Seq<char>>,
    id: NodeId,
) -> core::result::Result<(), ErrorView> {
    match stored {
        Err(reason) => Err(ErrorView::CorruptStorage(reason)),
        Ok(known) => if known == id {
            Ok(())
        } else {
            Err(
                ErrorView::CorruptStorage(
                    "Raft node ID changed from "@ + decimal(known as nat) + " to "@ + decimal(
                        id as nat,
                    ),
                ),
            )
        },
    }
}

/// A stored number, as contracts see it.
pub open spec fn stored_view(
    stored: core::result::Result<NodeId, String>,
) -> core::result::Result<NodeId, Seq<char>> {
    match stored {
        Ok(id) => Ok(id),
        Err(reason) => Err(reason@),
    }
}

/// Whether a directory belongs to a member: what its file says the member is, or
/// why it could not be read, against what the member is.
pub fn check_node_id(stored: core::result::Result<NodeId, String>, id: NodeId) -> (result: Result<
    (),
>)
    ensures
        match node_verdict(stored_view(stored), id) {
            Ok(_) => result is Ok,
            Err(error) => result is Err && result->Err_0@ == error,
        },
{
    match stored {
        Err(reason) => Err(Error::CorruptStorage(reason)),
        Ok(known) => if known == id {
            Ok(())
        } else {
            let mut message = join("Raft node ID changed from ", decimal_text(known).as_str());
            message.append(" to ");
            message.append(decimal_text(id).as_str());
            Err(Error::CorruptStorage(message))
        },
    }
}

/// Whether a directory belongs to a member, by the text of its file.
pub fn check_node_file(text: &str, id: NodeId) -> (result: Result<()>)
    ensures
        match node_verdict(named_node(trimmed(text@)), id) {
            Ok(_) => result is Ok,
            Err(error) => result is Err && result->Err_0@ == error,
        },
{
    check_node_id(parse_node_id(trim(text)), id)
}

/// The members that requests are kept from, to try faults out.
pub struct BlockedPeers {
    peers: Vec<NodeId>,
}

impl View for BlockedPeers {
    type V = Set<NodeId>;

    closed spec fn view(&self) -> Set<NodeId> {
        self.peers@.to_set()
    }
}

impl BlockedPeers {
    /// No member stands twice.
    pub closed spec fn wf(&self) -> bool {
        self.peers@.no_duplicates()
    }

    /// No member is blocked.
    pub fn new() -> (blocked: BlockedPeers)
        ensures
            blocked.wf(),
            blocked@ == Set::<NodeId>::empty(),
    {
        let blocked = BlockedPeers { peers: Vec::new() };
        assert(blocked@ =~= Set::empty());
        blocked
    }

    fn place(&self, target: NodeId) -> (place: Option<usize>)
        ensures
            match place {
                Some(at) => at < self.peers@.len() && self.peers@[at as int] == target,
                None => !self@.contains(target),
            },
            place is Some == self@.contains(target),
    {
        let mut i: usize = 0;
        while i < self.peers.len()
            invariant
                i <= self.peers@.len(),
                forall|j: int| 0 <= j < i ==> self.peers@[j] != target,
            decreases self.peers.len() - i,
        {
            if self.peers[i] == target {
                assert(self.peers@.contains(self.peers@[i as int]));
                return Some(i);
            }
            i = i + 1;
        }
        None
    }

    /// Whether requests are kept from a member.
    pub fn contains(&self, target: NodeId) -> (blocked: bool)
        ensures
            blocked == self@.contains(target),
    {
        self.place(target).is_some()
    }

    /// Blocks a member, or no longer.
    pub fn set_blocked(&mut self, target: NodeId, blocked: bool)
        requires
            old(self).wf(),
        ensures
            final(self).wf(),
            final(self)@ == if blocked {
                old(self)@.insert(target)
            } else {
                old(self)@.remove(target)
            },
    {
        let ghost before = self.peers@;
        let place: Option<usize> = self.place(target);
        if blocked {
            match place {
                Some(_) => {
                    assert(self@ =~= self@.insert(target));
                },
                None => {
                    self.peers.push(target);
                    proof {
                        assert(self@ =~= before.to_set().insert(target)) by {
                            assert forall|x: NodeId| self@.contains(x) <==> before.to_set().insert(
                                target,
                            ).contains(x) by {
                                if before.contains(x) {
                                    let i = choose|i: int| 0 <= i < before.len() && before[i] == x;
                                    assert(self.peers@[i] == x);
                                }
                                if x == target {
                                    assert(self.peers@[before.len() as int] == x);
                                }
                                if self.peers@.contains(x) {
                                    let i = choose|i: int|
                                        0 <= i < self.peers@.len() && self.peers@[i] == x;
                                    if i < before.len() {
                                        assert(before[i] == x);
                                    }
                                }
                            }
                        }
                    }
                },
            }
        } else {
            match place {
                Some(at) => {
                    self.peers.remove(at);
                    proof {
                        assert(self.peers@ =~= before.remove(at as int));
                        assert(self@ =~= before.to_set().remove(target)) by {
                            assert forall|x: NodeId| self@.contains(x) <==> before.to_set().remove(
                                target,
                            ).contains(x) by {
                                if self.peers@.contains(x) {
                                    let i = choose|i: int|
                                        0 <= i < self.peers@.len() && self.peers@[i] == x;
                                    let j = if i < at {
                                        i
                                    } else {
                                        i + 1
                                    };
                                    assert(before[j] == x);
                                    assert(before[at as int] == target);
                                }
                                if before.contains(x) && x != target {
                                    let j = choose|j: int| 0 <= j < before.len() && before[j] == x;
                                    let i = if j < at {
                                        j
                                    } else {
                                        j - 1
                                    };
                                    assert(self.peers@[i] == x);
                                }
                            }
                        }
                    }
                },
                None => {
                    assert(self@ =~= self@.remove(target));
                },
            }
        }
    }
}

/// What is said of a blocked member.
pub fn blocked_message(target: NodeId) -> (text: String)
    ensures
        text@ == "peer "@ + decimal(target as nat) + " is blocked by fault injection"@,
{
    let mut text = join("peer ", decimal_text(target).as_str());
    text.append(" is blocked by fault injection");
    text
}

/// A member answers a request that is at fault as the service does, and everything else
/// as something that may pass.
pub proof fn law_members_answer_as_the_service_does(error: ErrorView)
    ensures
        member_status(error) == 400 <==> status_code(error) == 400,
        member_status(error) == 429 <==> status_code(error) == 429,
        member_status(error) == 400 || member_status(error) == 429 || member_status(error) == 503,
{
}

/// A directory belongs to the member whose number stands in its file, and to no other.
pub proof fn law_directories_belong_to_one_member(known: NodeId, id: NodeId)
    ensures
        named_node(decimal(known as nat)) == Ok::<NodeId, Seq<char>>(known),
        node_verdict(named_node(decimal(known as nat)), id) is Ok <==> known == id,
{
    law_numerals_are_read_back(known as nat);
}

} // verus!
