//! DNS packets: messages as they travel in one datagram.

use crate::error::DNSResolverError;
use crate::message::{
    data_of_type, decode_message, encode_message, first_data_of_type, question_views, DNSMessage,
    MessageView,
};
use crate::query::{DNSHeader, DNSQuestion, HeaderView};
use crate::resource_record::{record_views, text_of, DNSRecord};
use crate::rr_types::RRType;
use crate::text::texts;
use vstd::prelude::*;

verus! {

/// A DNS packet: a message as it travels in one datagram.
#[derive(Debug)]
pub struct DNSPacket {
    message: DNSMessage,
}

impl View for DNSPacket {
    type V = MessageView;

    closed spec fn view(&self) -> MessageView {
        self.message@
    }
}

impl DNSPacket {
    /// A packet with the given header and sections.
    pub fn new(
        header: DNSHeader,
        questions: Vec<DNSQuestion>,
        answers: Vec<DNSRecord>,
        authorities: Vec<DNSRecord>,
        additionals: Vec<DNSRecord>,
    ) -> (packet: DNSPacket)
        ensures
            packet@ == (MessageView {
                header: header@,
                questions: question_views(questions@),
                answers: record_views(answers@),
                authorities: record_views(authorities@),
                additionals: record_views(additionals@),
            }),
    {
        DNSPacket { message: DNSMessage::new(header, questions, answers, authorities, additionals) }
    }

    /// Decodes a packet from its wire form: the header, then as many
    /// questions and records of each section as the header announces. Fails
    /// with the error of the first part that cannot be read.
    pub fn decode(packet: &Vec<u8>) -> (r: Result<DNSPacket, DNSResolverError>)
        ensures
            match decode_message(packet@) {
                Ok(decoded) => r matches Ok(found) && found@ == decoded,
                Err(e) => r matches Err(error) && error@ == e,
            },
    {
        match DNSMessage::decode(packet) {
            Ok(message) => Ok(DNSPacket { message }),
            Err(error) => Err(error),
        }
    }

    /// Encodes the packet into its wire form: the header, then each section
    /// in its order. Fails with `Encode` where the header's counts are not
    /// the lengths of the sections, and where a name has a label of more
    /// than 63 bytes.
    pub fn encode(&self) -> (r: Result<Vec<u8>, DNSResolverError>)
        ensures
            match encode_message(self@) {
                Ok(bytes) => r matches Ok(found) && found@ == bytes,
                Err(e) => r matches Err(error) && error@ == e,
            },
    {
        self.message.encode()
    }

    /// Sets the identifier in the header. Nothing else changes.
    pub fn set_id(&mut self, id: u16)
        ensures
            final(self)@ == (MessageView {
                header: HeaderView { id, ..old(self)@.header },
                ..old(self)@
            }),
    {
        self.message.set_id(id);
    }

    /// The whole answers section.
    pub fn answers(&mut self) -> (answers: &Vec<DNSRecord>)
        ensures
            record_views(answers@) == old(self)@.answers,
            final(self)@ == old(self)@,
    {
        self.message.answers()
    }

    /// The readable data of the answers of type `record_type` that have
    /// some, in their order.
    pub fn answers_data(&self, record_type: &RRType) -> (data: Vec<String>)
        ensures
            texts(data@) == data_of_type(self@.answers, *record_type),
    {
        self.message.answers_data(record_type)
    }

    /// The readable data of the first A record of the additionals section.
    pub fn ns_ip(&self) -> (address: &Option<String>)
        ensures
            text_of(*address) == first_data_of_type(self@.additionals, RRType::A),
    {
        self.message.ns_ip()
    }

    /// The readable data of the first NS record of the authorities section.
    pub fn nameserver(&self) -> (name: &Option<String>)
        ensures
            text_of(*name) == first_data_of_type(self@.authorities, RRType::NS),
    {
        self.message.nameserver()
    }
}

} // verus!
