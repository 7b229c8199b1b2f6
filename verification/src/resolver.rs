//! The decisions of the iterative lookup: what to do with each response of
//! a name server, and whom to ask next.
//!
//! A lookup starts at a root server. Each response either holds the answer,
//! names another name to look up in place of this one, names a server to ask
//! next by its address, or names one by its name, which is then looked up
//! first. The exchange of datagrams itself is left to the caller: it sends
//! each query that a step asks for and hands the response back.

use crate::domain_name::labels_fit;
use crate::error::{DNSResolverError, ErrorView};
use crate::message::{data_of_type, decode_message, first_data_of_type, DNSMessage, MessageView};
use crate::query::{build_query, labels_of_text, query_bytes, question_name_error};
use crate::resource_record::RecordView;
use crate::rr_types::{mnemonic, RRType};
use crate::text::texts;
use vstd::prelude::*;

verus! {

/// The most lookups of other names that one resolution starts.
pub const MAX_SUB_RESOLUTIONS: usize = 32;

/// The address of the root server that every lookup starts at.
pub open spec fn root_server() -> Seq<char> {
    "198.41.0.4"@
}

/// What a response asks the resolver to do.
pub enum Decision {
    /// The response holds records of the type asked for: it is the answer.
    Return,
    /// The response names the canonical name of the name asked for: look
    /// that name up in its place.
    ChaseCname(String),
    /// The response gives the address of a name server to ask next.
    UseNameserver(String),
    /// The response names a name server to ask next: look its address up
    /// first.
    ResolveNameserver(String),
    /// The response holds nothing to go on with.
    Fail,
}

/// A decision with its text as a sequence of characters.
pub enum DecisionView {
    Return,
    ChaseCname(Seq<char>),
    UseNameserver(Seq<char>),
    ResolveNameserver(Seq<char>),
    Fail,
}

impl View for Decision {
    type V = DecisionView;

    open spec fn view(&self) -> DecisionView {
        match self {
            Decision::Return => DecisionView::Return,
            Decision::ChaseCname(name) => DecisionView::ChaseCname(name@),
            Decision::UseNameserver(address) => DecisionView::UseNameserver(address@),
            Decision::ResolveNameserver(name) => DecisionView::ResolveNameserver(name@),
            Decision::Fail => DecisionView::Fail,
        }
    }
}

/// What the response `message` to a question for records of type
/// `record_type` asks the resolver to do. The first case that applies
/// decides:
///
/// 1. the answers hold readable records of the type asked for: return the
///    response;
/// 2. the type asked for is A and the answers hold a readable CNAME record:
///    look the canonical name up;
/// 3. the first A record of the additionals is readable: ask the server at
///    that address;
/// 4. the first NS record of the authorities is readable: look the address
///    of that server up, and ask it;
/// 5. fail.
pub open spec fn decision(message: MessageView, record_type: RRType) -> DecisionView {
    if data_of_type(message.answers, record_type).len() > 0 {
        DecisionView::Return
    } else if record_type == RRType::A && data_of_type(message.answers, RRType::CNAME).len() > 0 {
        DecisionView::ChaseCname(data_of_type(message.answers, RRType::CNAME)[0])
    } else if first_data_of_type(message.additionals, RRType::A) is Some {
        DecisionView::UseNameserver(first_data_of_type(message.additionals, RRType::A)->0)
    } else if first_data_of_type(message.authorities, RRType::NS) is Some {
        DecisionView::ResolveNameserver(first_data_of_type(message.authorities, RRType::NS)->0)
    } else {
        DecisionView::Fail
    }
}

/// Decides what to do with the response `message` to a question for records
/// of type `record_type`.
pub fn decide(message: &DNSMessage, record_type: &RRType) -> (decided: Decision)
    ensures
        decided@ == decision(message@, *record_type),
{
    if message.answers_data(record_type).len() > 0 {
        return Decision::Return;
    }
    if *record_type == RRType::A {
        let names = message.answers_data(&RRType::CNAME);
        if names.len() > 0 {
            return Decision::ChaseCname(names[0].clone());
        }
    }
    if let Some(address) = message.ns_ip() {
        return Decision::UseNameserver(address.clone());
    }
    if let Some(name) = message.nameserver() {
        return Decision::ResolveNameserver(name.clone());
    }
    Decision::Fail
}

/// What a lookup is for.
#[derive(Clone, Copy, PartialEq, Eq, Structural, Debug)]
pub enum Purpose {
    /// Its answer is the answer of the resolution.
    Answer,
    /// Its answer is the address of the name server that the lookup before
    /// it asks next.
    Nameserver,
}

/// One lookup: the name and the record type asked for, and the address of
/// the name server to ask.
#[derive(Debug)]
pub struct Lookup {
    domain: String,
    record_type: RRType,
    nameserver: String,
    purpose: Purpose,
}

/// What a lookup holds.
pub struct LookupView {
    pub domain: Seq<char>,
    pub record_type: RRType,
    pub nameserver: Seq<char>,
    pub purpose: Purpose,
}

impl View for Lookup {
    type V = LookupView;

    closed spec fn view(&self) -> LookupView {
        LookupView {
            domain: self.domain@,
            record_type: self.record_type,
            nameserver: self.nameserver@,
            purpose: self.purpose,
        }
    }
}

/// The views of a sequence of lookups.
pub open spec fn lookup_views(lookups: Seq<Lookup>) -> Seq<LookupView> {
    Seq::new(lookups.len(), |i: int| lookups[i]@)
}

/// What the resolver does next.
#[derive(Debug)]
pub enum Step {
    /// Send `query` to port 53 of the name server at the address
    /// `nameserver`, and hand the response to the resolution.
    Query { nameserver: String, query: Vec<u8> },
    /// The resolution has ended with this response.
    Done(DNSMessage),
    /// The resolution has failed.
    Failed(DNSResolverError),
}

/// A step with its values as sequences.
pub enum StepView {
    Query { nameserver: Seq<char>, query: Seq<u8> },
    Done(MessageView),
    Failed(ErrorView),
}

impl View for Step {
    type V = StepView;

    open spec fn view(&self) -> StepView {
        match self {
            Step::Query { nameserver, query } => StepView::Query {
                nameserver: nameserver@,
                query: query@,
            },
            Step::Done(message) => StepView::Done(message@),
            Step::Failed(error) => StepView::Failed(error@),
        }
    }
}

/// The state of a resolution: the lookups that are under way, the one that
/// waits for a response last, and the number of lookups of other names that
/// it has started.
pub struct ResolutionView {
    pub lookups: Seq<LookupView>,
    pub sub_resolutions: nat,
}

/// The state of a resolution that has ended.
pub open spec fn ended(sub_resolutions: nat) -> ResolutionView {
    ResolutionView { lookups: Seq::empty(), sub_resolutions }
}

/// The error of a lookup that has nothing to go on with: it names the record
/// type and the name.
pub open spec fn lookup_failure(lookup: LookupView) -> ErrorView {
    ErrorView::LookupFailure(mnemonic(lookup.record_type), lookup.domain)
}

/// The error for a resolution that is handed a response when no lookup
/// waits for one.
pub open spec fn idle_error() -> ErrorView {
    ErrorView::IOFailure("receive"@, "no lookup waits for a response"@)
}

/// Whether the resolver looks records of this type up.
pub open spec fn resolvable(record_type: RRType) -> bool {
    record_type == RRType::A || record_type == RRType::NS || record_type == RRType::CNAME
        || record_type == RRType::TXT
}

/// The resolution asks the name server of its last lookup: the state and the
/// step. Where the name of the lookup cannot be encoded, the resolution
/// fails.
pub open spec fn ask(lookups: Seq<LookupView>, sub_resolutions: nat) -> (ResolutionView, StepView) {
    let lookup = lookups.last();
    if labels_fit(labels_of_text(lookup.domain)) {
        (
            ResolutionView { lookups, sub_resolutions },
            StepView::Query {
                nameserver: lookup.nameserver,
                query: query_bytes(lookup.domain, lookup.record_type),
            },
        )
    } else {
        (ended(sub_resolutions), StepView::Failed(question_name_error()))
    }
}

/// The last lookup has its answer in `message`. Where the lookup was for the
/// answer of the resolution, the resolution is done. Where it was for a name
/// server, the lookup before it asks the server at the first address of the
/// answer.
pub open spec fn finish(lookups: Seq<LookupView>, sub_resolutions: nat, message: MessageView) -> (
    ResolutionView,
    StepView,
) {
    let lookup = lookups.last();
    let waiting = lookups.drop_last();
    if lookup.purpose == Purpose::Answer || waiting.len() == 0 {
        (ended(sub_resolutions), StepView::Done(message))
    } else if data_of_type(message.answers, RRType::A).len() == 0 {
        (ended(sub_resolutions), StepView::Failed(lookup_failure(lookup)))
    } else {
        ask(
            waiting.drop_last().push(
                LookupView {
                    nameserver: data_of_type(message.answers, RRType::A)[0],
                    ..waiting.last()
                },
            ),
            sub_resolutions,
        )
    }
}

/// What a resolution in the state `state` does with the response `message`:
/// the state after it and the step.
///
/// The decision on the response is that of `decision` for the record type
/// of the last lookup. A canonical name is looked up in place of the last
/// lookup, for A records and from the root server on. A name server's name
/// is looked up as one more lookup, for A records and from the root server
/// on. Both count as lookups of other names: where 32 of them have been
/// started already, the lookup fails instead. A failed lookup fails the
/// resolution.
pub open spec fn advance(state: ResolutionView, message: MessageView) -> (
    ResolutionView,
    StepView,
) {
    if state.lookups.len() == 0 {
        (state, StepView::Failed(idle_error()))
    } else {
        let lookup = state.lookups.last();
        match decision(message, lookup.record_type) {
            DecisionView::Return => finish(state.lookups, state.sub_resolutions, message),
            DecisionView::ChaseCname(name) => if state.sub_resolutions >= MAX_SUB_RESOLUTIONS {
                (ended(state.sub_resolutions), StepView::Failed(lookup_failure(lookup)))
            } else {
                ask(
                    state.lookups.drop_last().push(
                        LookupView {
                            domain: name,
                            record_type: RRType::A,
                            nameserver: root_server(),
                            purpose: lookup.purpose,
                        },
                    ),
                    state.sub_resolutions + 1,
                )
            },
            DecisionView::UseNameserver(address) => ask(
                state.lookups.drop_last().push(LookupView { nameserver: address, ..lookup }),
                state.sub_resolutions,
            ),
            DecisionView::ResolveNameserver(name) => if state.sub_resolutions
                >= MAX_SUB_RESOLUTIONS {
                (ended(state.sub_resolutions), StepView::Failed(lookup_failure(lookup)))
            } else {
                ask(
                    state.lookups.push(
                        LookupView {
                            domain: name,
                            record_type: RRType::A,
                            nameserver: root_server(),
                            purpose: Purpose::Nameserver,
                        },
                    ),
                    state.sub_resolutions + 1,
                )
            },
            DecisionView::Fail => (
                ended(state.sub_resolutions),
                StepView::Failed(lookup_failure(lookup)),
            ),
        }
    }
}

/// How a resolution for the records of type `record_type` of `domain`
/// starts: with a question to the root server, or, for a record type that
/// the resolver does not look up, with `InvalidRecordType`.
pub open spec fn begin(domain: Seq<char>, record_type: RRType) -> (ResolutionView, StepView) {
    if resolvable(record_type) {
        ask(
            seq![
                LookupView {
                    domain,
                    record_type,
                    nameserver: root_server(),
                    purpose: Purpose::Answer,
                },
            ],
            0,
        )
    } else {
        (ended(0), StepView::Failed(ErrorView::InvalidRecordType(mnemonic(record_type))))
    }
}

/// The resolution of one name and record type: the lookups that are under
/// way.
#[derive(Debug)]
pub struct Resolution {
    lookups: Vec<Lookup>,
    sub_resolutions: usize,
}

impl View for Resolution {
    type V = ResolutionView;

    closed spec fn view(&self) -> ResolutionView {
        ResolutionView {
            lookups: lookup_views(self.lookups@),
            sub_resolutions: self.sub_resolutions as nat,
        }
    }
}

impl Resolution {
    /// Starts the resolution of the records of type `record_type` of
    /// `domain`. Returns the resolution and its first step: a question to
    /// the root server, or a failure for a record type that the resolver
    /// does not look up and for a name that cannot be encoded.
    pub fn start(domain: String, record_type: &RRType) -> (started: (Resolution, Step))
        ensures
            (started.0@, started.1@) == begin(domain@, *record_type),
    {
        let mut resolution = Resolution { lookups: Vec::new(), sub_resolutions: 0 };
        match record_type {
            RRType::A | RRType::NS | RRType::CNAME | RRType::TXT => {
                let lookup = Lookup {
                    domain,
                    record_type: *record_type,
                    nameserver: "198.41.0.4".to_owned(),
                    purpose: Purpose::Answer,
                };
                resolution.lookups.push(lookup);
                assert(lookup_views(resolution.lookups@) == seq![lookup@]);
                let step = resolution.ask();
                (resolution, step)
            },
            _ => {
                assert(lookup_views(resolution.lookups@) == Seq::<LookupView>::empty());
                let step = Step::Failed(
                    DNSResolverError::InvalidRecordType(record_type.as_ref().to_owned()),
                );
                (resolution, step)
            },
        }
    }

    /// Whether the resolution has ended: no lookup waits for a response.
    pub fn is_done(&self) -> (done: bool)
        ensures
            done == (self@.lookups.len() == 0),
    {
        self.lookups.len() == 0
    }

    /// The number of lookups of other names that the resolution has started.
    pub fn sub_resolutions(&self) -> (count: usize)
        ensures
            count == self@.sub_resolutions,
    {
        self.sub_resolutions
    }

    fn halt(&mut self)
        ensures
            final(self)@ == ended(old(self)@.sub_resolutions),
    {
        self.lookups.clear();
        assert(lookup_views(self.lookups@) == Seq::<LookupView>::empty());
    }

    fn ask(&mut self) -> (step: Step)
        requires
            old(self)@.lookups.len() > 0,
        ensures
            (final(self)@, step@) == ask(old(self)@.lookups, old(self)@.sub_resolutions),
    {
        let last: usize = self.lookups.len() - 1;
        let lookup = &self.lookups[last];
        assert(lookup@ == self@.lookups.last());
        match build_query(lookup.domain.clone(), lookup.record_type) {
            Ok(query) => Step::Query { nameserver: lookup.nameserver.clone(), query },
            Err(error) => {
                self.halt();
                Step::Failed(error)
            },
        }
    }

    fn fail(&mut self) -> (step: Step)
        requires
            old(self)@.lookups.len() > 0,
        ensures
            final(self)@ == ended(old(self)@.sub_resolutions),
            step@ == StepView::Failed(lookup_failure(old(self)@.lookups.last())),
    {
        let last: usize = self.lookups.len() - 1;
        let lookup = &self.lookups[last];
        assert(lookup@ == self@.lookups.last());
        let error = DNSResolverError::LookupFailure(
            lookup.record_type.as_ref().to_owned(),
            lookup.domain.clone(),
        );
        self.halt();
        Step::Failed(error)
    }

    fn replace_last(&mut self, lookup: Lookup)
        requires
            old(self)@.lookups.len() > 0,
        ensures
            final(self)@ == (ResolutionView {
                lookups: old(self)@.lookups.drop_last().push(lookup@),
                ..old(self)@
            }),
    {
        self.lookups.pop();
        self.lookups.push(lookup);
        assert(lookup_views(self.lookups@) == lookup_views(old(self).lookups@).drop_last().push(
            lookup@,
        ));
    }

    fn finish(&mut self, message: DNSMessage) -> (step: Step)
        requires
            old(self)@.lookups.len() > 0,
        ensures
            (final(self)@, step@) == finish(
                old(self)@.lookups,
                old(self)@.sub_resolutions,
                message@,
            ),
    {
        let done = match self.lookups.pop() {
            Some(lookup) => lookup,
            None => {
                return Step::Done(message);
            },
        };
        assert(done@ == old(self)@.lookups.last());
        assert(lookup_views(self.lookups@) == old(self)@.lookups.drop_last());
        if done.purpose == Purpose::Answer || self.lookups.len() == 0 {
            self.halt();
            return Step::Done(message);
        }
        let addresses = message.answers_data(&RRType::A);
        if addresses.len() == 0 {
            let error = DNSResolverError::LookupFailure(
                done.record_type.as_ref().to_owned(),
                done.domain,
            );
            self.halt();
            return Step::Failed(error);
        }
        let last: usize = self.lookups.len() - 1;
        let waiting = &self.lookups[last];
        assert(waiting@ == old(self)@.lookups.drop_last().last());
        let next = Lookup {
            domain: waiting.domain.clone(),
            record_type: waiting.record_type,
            nameserver: addresses[0].clone(),
            purpose: waiting.purpose,
        };
        assert(addresses@[0]@ == texts(addresses@)[0]);
        self.replace_last(next);
        self.ask()
    }

    /// Takes the response `message` to the last question and returns the
    /// next step.
    pub fn on_message(&mut self, message: DNSMessage) -> (step: Step)
        ensures
            (final(self)@, step@) == advance(old(self)@, message@),
    {
        if self.lookups.len() == 0 {
            return Step::Failed(
                DNSResolverError::IOFailure(
                    "receive".to_owned(),
                    "no lookup waits for a response".to_owned(),
                ),
            );
        }
        let last: usize = self.lookups.len() - 1;
        let lookup = &self.lookups[last];
        assert(lookup@ == self@.lookups.last());
        match decide(&message, &lookup.record_type) {
            Decision::Return => self.finish(message),
            Decision::ChaseCname(name) => {
                if self.sub_resolutions >= MAX_SUB_RESOLUTIONS {
                    self.fail()
                } else {
                    let next = Lookup {
                        domain: name,
                        record_type: RRType::A,
                        nameserver: "198.41.0.4".to_owned(),
                        purpose: lookup.purpose,
                    };
                    self.replace_last(next);
                    self.sub_resolutions = self.sub_resolutions + 1;
                    self.ask()
                }
            },
            Decision::UseNameserver(address) => {
                let next = Lookup {
                    domain: lookup.domain.clone(),
                    record_type: lookup.record_type,
                    nameserver: address,
                    purpose: lookup.purpose,
                };
                self.replace_last(next);
                self.ask()
            },
            Decision::ResolveNameserver(name) => {
                if self.sub_resolutions >= MAX_SUB_RESOLUTIONS {
                    self.fail()
                } else {
                    let next = Lookup {
                        domain: name,
                        record_type: RRType::A,
                        nameserver: "198.41.0.4".to_owned(),
                        purpose: Purpose::Nameserver,
                    };
                    let ghost before = lookup_views(self.lookups@);
                    self.lookups.push(next);
                    assert(lookup_views(self.lookups@) == before.push(next@));
                    self.sub_resolutions = self.sub_resolutions + 1;
                    self.ask()
                }
            },
            Decision::Fail => self.fail(),
        }
    }

    /// Takes the bytes of the response to the last question and returns the
    /// next step. A response that cannot be decoded fails the resolution
    /// with the error of the decoder.
    pub fn on_response(&mut self, response: &Vec<u8>) -> (step: Step)
        ensures
            match decode_message(response@) {
                Ok(message) => (final(self)@, step@) == advance(old(self)@, message),
                Err(e) => final(self)@ == ended(old(self)@.sub_resolutions) && step@
                    == StepView::Failed(e),
            },
    {
        match DNSMessage::decode(response) {
            Ok(message) => self.on_message(message),
            Err(error) => {
                self.halt();
                Step::Failed(error)
            },
        }
    }
}

/// Where no record of `records` has the type `record_type`, there is no
/// data of that type among them.
pub proof fn lemma_no_record_of_type(records: Seq<RecordView>, record_type: RRType)
    requires
        forall|i: int| 0 <= i < records.len() ==> (#[trigger] records[i]).r_type != record_type,
    ensures
        data_of_type(records, record_type).len() == 0,
        first_data_of_type(records, record_type) is None,
    decreases records.len(),
{
    if records.len() > 0 {
        assert forall|i: int| 0 <= i < records.drop_last().len() implies (
        #[trigger] records.drop_last()[i]).r_type != record_type by {
            assert(records.drop_last()[i] == records[i]);
        }
        lemma_no_record_of_type(records.drop_last(), record_type);
        lemma_no_first_of_type(records, record_type);
    }
}

proof fn lemma_no_first_of_type(records: Seq<RecordView>, record_type: RRType)
    requires
        forall|i: int| 0 <= i < records.len() ==> (#[trigger] records[i]).r_type != record_type,
    ensures
        first_data_of_type(records, record_type) is None,
    decreases records.len(),
{
    if records.len() > 0 {
        assert forall|i: int| 0 <= i < records.skip(1).len() implies (#[trigger] records.skip(
            1,
        )[i]).r_type != record_type by {
            assert(records.skip(1)[i] == records[i + 1]);
        }
        lemma_no_first_of_type(records.skip(1), record_type);
    }
}

/// A response without answers, without an A record among the additionals
/// and without an NS record among the authorities fails the lookup with
/// `LookupFailure` at once, and the resolution with it.
pub proof fn lemma_nothing_to_go_on(state: ResolutionView, message: MessageView)
    requires
        state.lookups.len() > 0,
        message.answers.len() == 0,
        forall|i: int|
            0 <= i < message.additionals.len() ==> (#[trigger] message.additionals[i]).r_type
                != RRType::A,
        forall|i: int|
            0 <= i < message.authorities.len() ==> (#[trigger] message.authorities[i]).r_type
                != RRType::NS,
    ensures
        decision(message, state.lookups.last().record_type) == DecisionView::Fail,
        advance(state, message) == (
            ended(state.sub_resolutions),
            StepView::Failed(lookup_failure(state.lookups.last())),
        ),
{
    lemma_no_record_of_type(message.answers, state.lookups.last().record_type);
    lemma_no_record_of_type(message.answers, RRType::CNAME);
    lemma_no_record_of_type(message.additionals, RRType::A);
    lemma_no_record_of_type(message.authorities, RRType::NS);
}

/// The state and the step of a resolution after the responses `messages`
/// were handed to it one after the other, from the state and the step
/// `start` on.
pub open spec fn replay(start: (ResolutionView, StepView), messages: Seq<MessageView>) -> (
    ResolutionView,
    StepView,
)
    decreases messages.len(),
{
    if messages.len() == 0 {
        start
    } else {
        advance(replay(start, messages.drop_last()).0, messages.last())
    }
}

/// The lookup of the A records of `domain` that asks the server at
/// `nameserver` for the answer of the resolution.
pub open spec fn asking(domain: Seq<char>, nameserver: Seq<char>) -> (ResolutionView, StepView) {
    ask(
        seq![
            LookupView {
                domain,
                record_type: RRType::A,
                nameserver,
                purpose: Purpose::Answer,
            },
        ],
        0,
    )
}

/// The address that the referral `message` hands out.
pub open spec fn referred(message: MessageView) -> Seq<char> {
    first_data_of_type(message.additionals, RRType::A)->0
}

/// Whether `message` refers a question for A records to a server by its
/// address.
pub open spec fn is_referral(message: MessageView) -> bool {
    decision(message, RRType::A) is UseNameserver
}

/// A chain of referrals leads the resolution from server to server: after
/// each referral the resolution asks the server that the referral names,
/// with the same question.
pub proof fn lemma_referrals_followed(domain: Seq<char>, referrals: Seq<MessageView>)
    requires
        labels_fit(labels_of_text(domain)),
        forall|i: int| 0 <= i < referrals.len() ==> is_referral(#[trigger] referrals[i]),
    ensures
        replay(begin(domain, RRType::A), referrals) == asking(
            domain,
            if referrals.len() == 0 {
                root_server()
            } else {
                referred(referrals.last())
            },
        ),
        replay(begin(domain, RRType::A), referrals).1 is Query,
    decreases referrals.len(),
{
    if referrals.len() > 0 {
        let earlier = referrals.drop_last();
        assert forall|i: int| 0 <= i < earlier.len() implies is_referral(#[trigger] earlier[i]) by {
            assert(earlier[i] == referrals[i]);
        }
        lemma_referrals_followed(domain, earlier);
        let lookups = replay(begin(domain, RRType::A), earlier).0.lookups;
        assert(lookups.len() == 1);
        assert(lookups.drop_last().push(
            LookupView { nameserver: referred(referrals.last()), ..lookups.last() },
        ) == seq![
            LookupView {
                domain,
                record_type: RRType::A,
                nameserver: referred(referrals.last()),
                purpose: Purpose::Answer,
            },
        ]);
    }
}

/// A chain of referrals that ends in a response with A records ends the
/// resolution with that response, and the resolution asks exactly one
/// question for each response of the chain: one is under way before each
/// response, and none after the last.
pub proof fn lemma_referral_chain(
    domain: Seq<char>,
    referrals: Seq<MessageView>,
    answer: MessageView,
    count: int,
)
    requires
        labels_fit(labels_of_text(domain)),
        forall|i: int| 0 <= i < referrals.len() ==> is_referral(#[trigger] referrals[i]),
        decision(answer, RRType::A) == DecisionView::Return,
        0 <= count <= referrals.len(),
    ensures
        replay(begin(domain, RRType::A), referrals.push(answer)) == (
            ended(0),
            StepView::Done(answer),
        ),
        data_of_type(answer.answers, RRType::A).len() > 0,
        replay(begin(domain, RRType::A), referrals.push(answer).take(count)).1 is Query,
{
    lemma_referrals_followed(domain, referrals);
    assert(referrals.push(answer).drop_last() == referrals);
    let earlier = referrals.take(count);
    assert(referrals.push(answer).take(count) == earlier);
    assert forall|i: int| 0 <= i < earlier.len() implies is_referral(#[trigger] earlier[i]) by {
        assert(earlier[i] == referrals[i]);
    }
    lemma_referrals_followed(domain, earlier);
}

/// A response that names the canonical name of the name asked for, then a
/// response with A records: the resolution asks the root server for the A
/// records of the canonical name, and ends with the second response. The
/// records of its answer belong to the canonical name, not to the name that
/// was asked for first.
pub proof fn lemma_cname_then_address(
    domain: Seq<char>,
    alias: MessageView,
    canonical: Seq<char>,
    answer: MessageView,
)
    requires
        labels_fit(labels_of_text(domain)),
        labels_fit(labels_of_text(canonical)),
        decision(alias, RRType::A) == DecisionView::ChaseCname(canonical),
        decision(answer, RRType::A) == DecisionView::Return,
    ensures
        replay(begin(domain, RRType::A), seq![alias]) == (
            ResolutionView { sub_resolutions: 1, ..asking(canonical, root_server()).0 },
            asking(canonical, root_server()).1,
        ),
        replay(begin(domain, RRType::A), seq![alias, answer]) == (
            ended(1),
            StepView::Done(answer),
        ),
        data_of_type(answer.answers, RRType::A).len() > 0,
{
    let start = begin(domain, RRType::A);
    assert(seq![alias].drop_last() == Seq::<MessageView>::empty());
    assert(replay(start, seq![alias].drop_last()) == start);
    let lookups = start.0.lookups;
    assert(lookups.drop_last().push(
        LookupView {
            domain: canonical,
            record_type: RRType::A,
            nameserver: root_server(),
            purpose: Purpose::Answer,
        },
    ) == seq![
        LookupView {
            domain: canonical,
            record_type: RRType::A,
            nameserver: root_server(),
            purpose: Purpose::Answer,
        },
    ]);
    let both = seq![alias, answer];
    assert(both.drop_last() == seq![alias]);
    assert(both.last() == answer);
    let middle = replay(start, seq![alias]);
    assert(replay(start, both) == advance(middle.0, answer));
    assert(middle.0.lookups.len() == 1);
    assert(middle.0.lookups.last().purpose == Purpose::Answer);
}

/// Whether the lookups of a resolution for records of type `record_type`
/// are in order: the first one is for the answer of the resolution and asks
/// for that type, each one after it is for a name server and asks for A
/// records, and no more lookups of other names were started than the
/// resolution may start.
pub open spec fn in_order(state: ResolutionView, record_type: RRType) -> bool {
    &&& state.sub_resolutions <= MAX_SUB_RESOLUTIONS
    &&& state.lookups.len() <= state.sub_resolutions + 1
    &&& forall|i: int|
        0 <= i < state.lookups.len() ==> if i == 0 {
            (#[trigger] state.lookups[i]).purpose == Purpose::Answer && state.lookups[i].record_type
                == record_type
        } else {
            state.lookups[i].purpose == Purpose::Nameserver && state.lookups[i].record_type
                == RRType::A
        }
}

/// A step keeps the lookups in order, and where it ends the resolution with
/// a response, that response is the one that was handed in, and it holds
/// readable records of the type that the resolution asks for.
pub proof fn lemma_advance_in_order(
    state: ResolutionView,
    message: MessageView,
    record_type: RRType,
)
    requires
        in_order(state, record_type),
    ensures
        in_order(advance(state, message).0, record_type),
        advance(state, message).1 matches StepView::Done(found) ==> found == message
            && data_of_type(found.answers, record_type).len() > 0,
{
    let count = state.lookups.len() as int;
    if count > 0 {
        let lookup = state.lookups.last();
        assert(lookup == state.lookups[count - 1]);
        let waiting = state.lookups.drop_last();
        assert forall|i: int| 0 <= i < waiting.len() implies waiting[i] == state.lookups[i] by {}
        match decision(message, lookup.record_type) {
            DecisionView::Return => {
                if !(lookup.purpose == Purpose::Answer || waiting.len() == 0) && data_of_type(
                    message.answers,
                    RRType::A,
                ).len() > 0 {
                    let asked = waiting.drop_last().push(
                        LookupView {
                            nameserver: data_of_type(message.answers, RRType::A)[0],
                            ..waiting.last()
                        },
                    );
                    assert(waiting.last() == state.lookups[count - 2]);
                    assert forall|i: int| 0 <= i < asked.len() - 1 implies asked[i]
                        == state.lookups[i] by {}
                    assert(in_order(ask(asked, state.sub_resolutions).0, record_type));
                }
            },
            DecisionView::ChaseCname(name) => {
                let asked = waiting.push(
                    LookupView {
                        domain: name,
                        record_type: RRType::A,
                        nameserver: root_server(),
                        purpose: lookup.purpose,
                    },
                );
                assert forall|i: int| 0 <= i < asked.len() - 1 implies asked[i]
                    == state.lookups[i] by {}
                if state.sub_resolutions < MAX_SUB_RESOLUTIONS {
                    assert(in_order(ask(asked, state.sub_resolutions + 1).0, record_type));
                }
            },
            DecisionView::UseNameserver(address) => {
                let asked = waiting.push(LookupView { nameserver: address, ..lookup });
                assert forall|i: int| 0 <= i < asked.len() - 1 implies asked[i]
                    == state.lookups[i] by {}
                assert(in_order(ask(asked, state.sub_resolutions).0, record_type));
            },
            DecisionView::ResolveNameserver(name) => {
                let asked = state.lookups.push(
                    LookupView {
                        domain: name,
                        record_type: RRType::A,
                        nameserver: root_server(),
                        purpose: Purpose::Nameserver,
                    },
                );
                assert forall|i: int| 0 <= i < asked.len() - 1 implies asked[i]
                    == state.lookups[i] by {}
                if state.sub_resolutions < MAX_SUB_RESOLUTIONS {
                    assert(in_order(ask(asked, state.sub_resolutions + 1).0, record_type));
                }
            },
            DecisionView::Fail => {},
        }
    }
}

/// Whatever responses a resolution is handed, its lookups stay in order, it
/// never starts more lookups of other names than it may, and where it ends
/// with a response, that response is the last one that it was handed and
/// holds readable records of the type that was asked for. One question is
/// asked for each response: the resolution takes one step for each.
pub proof fn lemma_resolution_in_order(
    domain: Seq<char>,
    record_type: RRType,
    messages: Seq<MessageView>,
)
    ensures
        in_order(replay(begin(domain, record_type), messages).0, record_type),
        replay(begin(domain, record_type), messages).0.sub_resolutions <= MAX_SUB_RESOLUTIONS,
        replay(begin(domain, record_type), messages).1 matches StepView::Done(found)
            ==> messages.len() > 0 && found == messages.last() && data_of_type(
            found.answers,
            record_type,
        ).len() > 0,
    decreases messages.len(),
{
    if messages.len() > 0 {
        lemma_resolution_in_order(domain, record_type, messages.drop_last());
        lemma_advance_in_order(
            replay(begin(domain, record_type), messages.drop_last()).0,
            messages.last(),
            record_type,
        );
    }
}

} // verus!
