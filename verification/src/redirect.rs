//! Following a cluster to its leader, and reading what its nodes answer.
use vstd::prelude::*;
use vstd::string::*;

use crate::cli::optional_text;
use crate::fault::{because, fault, fault_of, Fault, FaultKind, FaultView};
use crate::join::{info_field, info_of};
use crate::resp::{parse, parsed, views, RespError, RespValue, RespView, MAX_FRAME};
use crate::text::{copy_bytes, lossy_of, lossy_text, same_text};
use crate::words::{find_behind, first_behind, holds_text, split_words, texts, words};

verus! {

/// How many nodes are asked before a search for the leader is given up.
pub const MAX_HOPS: usize = 4;

/// A search for the node that answers for the cluster: who was asked, and who
/// is next.
#[derive(Clone, Debug, PartialEq, Eq)]
pub struct MembershipSearch {
    pub seen: Vec<String>,
    pub current: String,
}

#[verifier::ext_equal]
pub struct SearchView {
    pub seen: Seq<Seq<char>>,
    pub current: Seq<char>,
}

impl View for MembershipSearch {
    type V = SearchView;

    open spec fn view(&self) -> SearchView {
        SearchView { seen: texts(self.seen@), current: self.current@ }
    }
}

/// What a search does next.
#[derive(Clone, Debug, PartialEq, Eq)]
pub enum SearchStep {
    Ask(String),
    Found(String),
    Fail(Fault),
}

pub enum StepView {
    Ask(Seq<char>),
    Found(Seq<char>),
    Fail(FaultView),
}

impl View for SearchStep {
    type V = StepView;

    open spec fn view(&self) -> StepView {
        match *self {
            SearchStep::Ask(address) => StepView::Ask(address@),
            SearchStep::Found(status) => StepView::Found(status@),
            SearchStep::Fail(fault) => StepView::Fail(fault@),
        }
    }
}

/// Where a refusal sends its reader.
pub open spec fn redirect_in(message: Seq<char>) -> Option<Seq<char>> {
    match first_behind(words(message), "addr="@, 0) {
        Some(address) => if address == "unknown"@ {
            None
        } else {
            Some(address)
        },
        None => None,
    }
}

/// Asks the next node, unless it was asked already or enough were.
pub open spec fn asked_next(search: SearchView) -> (SearchView, StepView) {
    if search.seen.len() >= MAX_HOPS {
        (
            search,
            StepView::Fail(
                because(FaultKind::InvalidData, "join leader redirect exceeded hop limit"),
            ),
        )
    } else if search.seen.contains(search.current) {
        (search, StepView::Fail(because(FaultKind::InvalidData, "join leader redirect loop")))
    } else {
        (
            SearchView { seen: search.seen.push(search.current), current: search.current },
            StepView::Ask(search.current),
        )
    }
}

/// What an answer means for a search. Without an answer it begins.
pub open spec fn searched(
    search: SearchView,
    answer: Option<Result<Seq<char>, FaultView>>,
) -> (SearchView, StepView) {
    match answer {
        None => asked_next(search),
        Some(Ok(status)) => (search, StepView::Found(status)),
        Some(Err(fault)) => match redirect_in(fault.message) {
            None => (search, StepView::Fail(fault)),
            Some(next) => asked_next(SearchView { seen: search.seen, current: next }),
        },
    }
}

/// An answer as mathematics.
pub open spec fn answer_view(answer: Option<Result<String, Fault>>) -> Option<
    Result<Seq<char>, FaultView>,
> {
    match answer {
        None => None,
        Some(Ok(status)) => Some(Ok(status@)),
        Some(Err(fault)) => Some(Err(fault@)),
    }
}

/// A search that begins at a node.
pub fn begin_search(seed: &str) -> (search: MembershipSearch)
    ensures
        search@ == (SearchView { seen: seq![], current: seed@ }),
{
    let search = MembershipSearch { seen: Vec::new(), current: seed.to_owned() };
    assert(texts(search.seen@) =~= seq![]);
    search
}

fn ask_next(search: &mut MembershipSearch) -> (step: SearchStep)
    ensures
        (final(search)@, step@) == asked_next(old(search)@),
{
    if search.seen.len() >= MAX_HOPS {
        return SearchStep::Fail(
            fault(FaultKind::InvalidData, "join leader redirect exceeded hop limit"),
        );
    }
    if holds_text(search.seen.as_slice(), search.current.as_str()) {
        return SearchStep::Fail(fault(FaultKind::InvalidData, "join leader redirect loop"));
    }
    let ghost before = texts(search.seen@);
    search.seen.push(search.current.clone());
    assert(texts(search.seen@) =~= before.push(search.current@));
    SearchStep::Ask(search.current.clone())
}

/// Takes up an answer to the question for the membership, or begins without
/// one.
pub fn request_membership_follow(
    search: &mut MembershipSearch,
    answer: Option<Result<String, Fault>>,
) -> (step: SearchStep)
    ensures
        (final(search)@, step@) == searched(old(search)@, answer_view(answer)),
{
    match answer {
        None => ask_next(search),
        Some(Ok(status)) => SearchStep::Found(status),
        Some(Err(error)) => {
            let parts = split_words(error.message.as_str());
            match find_behind(&parts, "addr=") {
                None => SearchStep::Fail(error),
                Some(next) => {
                    if same_text(next.as_str(), "unknown") {
                        return SearchStep::Fail(error);
                    }
                    search.current = next;
                    ask_next(search)
                },
            }
        },
    }
}

/// A search that asked nobody twice and no more than four nodes.
pub open spec fn bounded(search: SearchView) -> bool {
    &&& search.seen.len() <= MAX_HOPS
    &&& search.seen.no_duplicates()
}

/// A search asks nobody twice and at most four nodes, whatever they answer.
pub proof fn law_searches_are_bounded(
    search: SearchView,
    answer: Option<Result<Seq<char>, FaultView>>,
)
    requires
        bounded(search),
    ensures
        bounded(searched(search, answer).0),
        searched(search, answer).1 matches StepView::Ask(address) ==> !search.seen.contains(address)
            && searched(search, answer).0.seen == search.seen.push(address),
{
}

/// A search for the leader by the information that nodes give: who is asked,
/// and how many were.
#[derive(Clone, Debug, PartialEq, Eq)]
pub struct LeaderSearch {
    pub current: String,
    pub hops: usize,
}

/// What a search for the leader does next.
#[derive(Clone, Debug, PartialEq, Eq)]
pub enum LeaderStep {
    Ask(String),
    Found { address: String, response: String },
    Fail(Fault),
}

pub enum LeaderStepView {
    Ask(Seq<char>),
    Found { address: Seq<char>, response: Seq<char> },
    Fail(FaultView),
}

impl View for LeaderStep {
    type V = LeaderStepView;

    open spec fn view(&self) -> LeaderStepView {
        match *self {
            LeaderStep::Ask(address) => LeaderStepView::Ask(address@),
            LeaderStep::Found { address, response } => LeaderStepView::Found {
                address: address@,
                response: response@,
            },
            LeaderStep::Fail(fault) => LeaderStepView::Fail(fault@),
        }
    }
}

/// Who a node's information sends its reader to: the leader's clients, where
/// the node only follows and the leader is another.
pub open spec fn sent_on(current: Seq<char>, response: Seq<char>) -> Option<Seq<char>> {
    match info_of(response, "leader_client_addr") {
        None => None,
        Some(next) => if info_of(response, "role") != Some("follower"@) || next == current {
            None
        } else {
            Some(next)
        },
    }
}

/// Asks a node, unless enough were asked.
pub open spec fn leader_asked(current: Seq<char>, hops: nat) -> (Seq<char>, nat, LeaderStepView) {
    if hops >= MAX_HOPS {
        (
            current,
            hops,
            LeaderStepView::Fail(
                because(FaultKind::InvalidData, "admin leader redirect exceeded hop limit"),
            ),
        )
    } else {
        (current, hops + 1, LeaderStepView::Ask(current))
    }
}

/// What an answer means for a search for the leader. Without an answer it
/// begins.
pub open spec fn leader_searched(
    current: Seq<char>,
    hops: nat,
    answer: Option<Result<Seq<char>, FaultView>>,
) -> (Seq<char>, nat, LeaderStepView) {
    match answer {
        None => leader_asked(current, hops),
        Some(Err(fault)) => (current, hops, LeaderStepView::Fail(fault)),
        Some(Ok(response)) => match sent_on(current, response) {
            None => (current, hops, LeaderStepView::Found { address: current, response }),
            Some(next) => leader_asked(next, hops),
        },
    }
}

fn ask_leader(search: &mut LeaderSearch) -> (step: LeaderStep)
    ensures
        (final(search).current@, final(search).hops as nat, step@) == leader_asked(
            old(search).current@,
            old(search).hops as nat,
        ),
{
    if search.hops >= MAX_HOPS {
        return LeaderStep::Fail(
            fault(FaultKind::InvalidData, "admin leader redirect exceeded hop limit"),
        );
    }
    search.hops = search.hops + 1;
    LeaderStep::Ask(search.current.clone())
}

/// Takes up an answer to the question for information, or begins without one.
pub fn request_info_follow(search: &mut LeaderSearch, answer: Option<Result<String, Fault>>) -> (step:
    LeaderStep)
    ensures
        (final(search).current@, final(search).hops as nat, step@) == leader_searched(
            old(search).current@,
            old(search).hops as nat,
            answer_view(answer),
        ),
{
    match answer {
        None => ask_leader(search),
        Some(Err(error)) => LeaderStep::Fail(error),
        Some(Ok(response)) => {
            let role = info_field(response.as_str(), "role");
            let next = match info_field(response.as_str(), "leader_client_addr") {
                Some(next) => next,
                None => return LeaderStep::Found { address: search.current.clone(), response },
            };
            let follows = match &role {
                Some(role) => same_text(role.as_str(), "follower"),
                None => false,
            };
            if !follows || same_text(next.as_str(), search.current.as_str()) {
                return LeaderStep::Found { address: search.current.clone(), response };
            }
            search.current = next;
            ask_leader(search)
        },
    }
}

/// Every question of a search for the leader brings it closer to its end.
pub proof fn law_leader_searches_end(
    current: Seq<char>,
    hops: nat,
    answer: Option<Result<Seq<char>, FaultView>>,
)
    requires
        hops <= MAX_HOPS,
    ensures
        leader_searched(current, hops, answer).1 <= MAX_HOPS,
        leader_searched(current, hops, answer).2 is Ask ==> leader_searched(current, hops, answer).1
            == hops + 1,
{
}

/// A text without carriage returns, on one line.
pub open spec fn one_line(text: Seq<char>) -> Seq<char>
    decreases text.len(),
{
    if text.len() == 0 {
        seq![]
    } else {
        let before = one_line(text.drop_last());
        if text.last() == '\r' {
            before
        } else if text.last() == '\n' {
            before.push(' ')
        } else {
            before.push(text.last())
        }
    }
}

/// Puts a text on one line.
pub fn flatten(text: &str) -> (flat: String)
    ensures
        flat@ == one_line(text@),
{
    let size: usize = text.unicode_len();
    let mut flat = String::new();
    let mut i: usize = 0;
    assert(flat@ =~= one_line(text@.take(0)));
    proof {
        reveal_strlit(" ");
    }
    while i < size
        invariant
            i <= size == text@.len(),
            " "@ =~= seq![' '],
            flat@ == one_line(text@.take(i as int)),
        decreases size - i,
    {
        let ghost next = text@.take(i + 1);
        assert(next.drop_last() =~= text@.take(i as int));
        assert(next.last() == text@[i as int]);
        let c = text.get_char(i);
        if c == '\n' {
            flat.append(" ");
        } else if c != '\r' {
            let part = text.substring_char(i, i + 1);
            assert(part@ =~= seq![c]);
            flat.append(part);
        }
        i += 1;
        assert(flat@ =~= one_line(next));
    }
    assert(text@.take(size as int) =~= text@);
    flat
}

/// What a node answers to a question for information, where it is a text. A
/// reply of another shape has none.
pub open spec fn info_reply(value: RespView) -> Option<Seq<char>> {
    match value {
        RespView::Bulk(Some(bytes)) => Some(one_line(lossy_of(bytes))),
        RespView::Simple(text) => Some(text),
        RespView::Error(text) => Some(text),
        _ => None,
    }
}

/// Reads a node's answer to a question for information.
pub fn request_info(value: &RespValue) -> (text: Option<String>)
    ensures
        optional_text(text) == info_reply(value@),
{
    match value {
        RespValue::Bulk(Some(bytes)) => Some(flatten(lossy_text(bytes.as_slice()).as_str())),
        RespValue::Simple(text) => Some(text.clone()),
        RespValue::Error(text) => Some(text.clone()),
        _ => None,
    }
}

/// What a node answers to a command of an operator, where it is a text or a
/// refusal. A reply of another shape has none.
pub open spec fn admin_reply(value: RespView) -> Option<Result<Seq<char>, FaultView>> {
    match value {
        RespView::Bulk(Some(bytes)) => Some(Ok(lossy_of(bytes))),
        RespView::Simple(text) => Some(Ok(text)),
        RespView::Error(text) => Some(
            Err(FaultView { kind: FaultKind::Other, message: text }),
        ),
        _ => None,
    }
}

/// Reads a node's answer to a command of an operator.
pub fn request_admin_command(value: &RespValue) -> (answer: Option<Result<String, Fault>>)
    ensures
        answer_view(answer) == admin_reply(value@),
{
    match value {
        RespValue::Bulk(Some(bytes)) => Some(Ok(lossy_text(bytes.as_slice()))),
        RespValue::Simple(text) => Some(Ok(text.clone())),
        RespValue::Error(text) => Some(Err(fault_of(FaultKind::Other, text.clone()))),
        _ => None,
    }
}

/// The frame that carries a command.
pub open spec fn command_frame(parts: Seq<Seq<char>>) -> RespView {
    RespView::Array(
        parts.map_values(
            |part: Seq<char>| RespView::Bulk(Some(vstd::utf8::encode_utf8(part))),
        ),
    )
}

/// Composes the frame that carries a command.
pub fn compose_command(parts: &[String]) -> (value: RespValue)
    ensures
        value@ == command_frame(texts(parts@)),
{
    let ghost all = texts(parts@);
    let ghost shown = command_frame(all)->Array_0;
    let mut items: Vec<RespValue> = Vec::new();
    let mut i: usize = 0;
    while i < parts.len()
        invariant
            i <= parts@.len(),
            all == texts(parts@),
            shown == command_frame(all)->Array_0,
            items@.len() == i,
            forall|k: int| 0 <= k < i ==> (#[trigger] items@[k])@ == shown[k],
        decreases parts@.len() - i,
    {
        assert(all[i as int] == parts@[i as int]@);
        let item = RespValue::Bulk(Some(copy_bytes(parts[i].as_str().as_bytes())));
        assert(item@ == shown[i as int]);
        items.push(item);
        i += 1;
    }
    assert(shown.len() == all.len());
    assert forall|k: int| 0 <= k < items@.len() implies #[trigger] views(items@)[k] == shown[k] by {
        assert(items@[k]@ == shown[k]);
    }
    assert(views(items@) =~= shown);
    RespValue::Array(items)
}

/// What bytes received so far are.
#[derive(Debug)]
pub enum Received {
    /// A whole answer.
    Value(RespValue),
    /// The beginning of one.
    More,
    /// No answer.
    Fail(Fault),
}

pub enum ReceivedView {
    Value(RespView),
    More,
    Fail(FaultView),
}

impl View for Received {
    type V = ReceivedView;

    open spec fn view(&self) -> ReceivedView {
        match *self {
            Received::Value(value) => ReceivedView::Value(value@),
            Received::More => ReceivedView::More,
            Received::Fail(fault) => ReceivedView::Fail(fault@),
        }
    }
}

/// What bytes received so far are, where `closed` says that no more come.
pub open spec fn received(buffer: Seq<u8>, closed: bool) -> ReceivedView {
    if buffer.len() > MAX_FRAME {
        ReceivedView::Fail(
            because(FaultKind::InvalidData, "admin response exceeds frame limit"),
        )
    } else {
        match parsed(buffer) {
            Ok((value, _)) => ReceivedView::Value(value),
            Err(RespError::Incomplete) => if closed {
                ReceivedView::Fail(
                    because(
                        FaultKind::UnexpectedEof,
                        "client closed before a complete RESP value",
                    ),
                )
            } else {
                ReceivedView::More
            },
            Err(reason) => ReceivedView::Fail(
                FaultView { kind: FaultKind::InvalidData, message: reason.shown() },
            ),
        }
    }
}

/// Takes up the bytes received so far.
pub fn read_resp_value(buffer: &[u8], closed: bool) -> (found: Received)
    ensures
        found@ == received(buffer@, closed),
{
    if buffer.len() > MAX_FRAME {
        return Received::Fail(
            fault(FaultKind::InvalidData, "admin response exceeds frame limit"),
        );
    }
    match parse(buffer) {
        Ok((value, _)) => Received::Value(value),
        Err(RespError::Incomplete) => if closed {
            Received::Fail(
                fault(FaultKind::UnexpectedEof, "client closed before a complete RESP value"),
            )
        } else {
            Received::More
        },
        Err(reason) => Received::Fail(fault_of(FaultKind::InvalidData, reason.message())),
    }
}

} // verus!
