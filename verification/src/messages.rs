//! Requests and responses as the dispatcher sees them: a thin wrapper over
//! [`Message`] that derives a response skeleton from an incoming request.

use vstd::prelude::*;

use crate::packets::{clone_questions, Message, PacketType, Question, ResourceRecord, ResponseCode};

verus! {

/// An incoming query, wrapped for the handler chain.
#[derive(Debug)]
pub struct Request {
    pub message: Message,
}

/// An outgoing answer under construction.
#[derive(Debug)]
pub struct Response {
    pub message: Message,
}

impl Response {
    /// The message this response will be encoded from.
    pub fn message(&self) -> (r: &Message)
        ensures
            r == &self.message,
    {
        &self.message
    }

    /// Replaces the answer section.
    pub fn set_answers(&mut self, answers: Vec<ResourceRecord>)
        ensures
            final(self).message.answers@ == answers@,
            final(self).message.id == old(self).message.id,
            final(self).message.packet_type == old(self).message.packet_type,
            final(self).message.op_code == old(self).message.op_code,
            final(self).message.authoritative_answer == old(self).message.authoritative_answer,
            final(self).message.truncation == old(self).message.truncation,
            final(self).message.recursion_desired == old(self).message.recursion_desired,
            final(self).message.recursion_available == old(self).message.recursion_available,
            final(self).message.response_code == old(self).message.response_code,
            final(self).message.questions@ == old(self).message.questions@,
            final(self).message.authorities@ == old(self).message.authorities@,
            final(self).message.additional_records@ == old(self).message.additional_records@,
    {
        self.message.answers = answers;
    }

    /// Marks the response with the given response code.
    pub fn set_code(&mut self, code: ResponseCode)
        ensures
            final(self).message.response_code == code,
            final(self).message.id == old(self).message.id,
            final(self).message.packet_type == old(self).message.packet_type,
            final(self).message.op_code == old(self).message.op_code,
            final(self).message.authoritative_answer == old(self).message.authoritative_answer,
            final(self).message.truncation == old(self).message.truncation,
            final(self).message.recursion_desired == old(self).message.recursion_desired,
            final(self).message.recursion_available == old(self).message.recursion_available,
            final(self).message.questions@ == old(self).message.questions@,
            final(self).message.answers@ == old(self).message.answers@,
            final(self).message.authorities@ == old(self).message.authorities@,
            final(self).message.additional_records@ == old(self).message.additional_records@,
    {
        self.message.response_code = code;
    }
}

impl Request {
    /// Wraps a decoded message.
    pub fn new(message: Message) -> (r: Request)
        ensures
            r.message == message,
    {
        Request { message }
    }

    /// The transaction id of the query.
    pub fn id(&self) -> (r: u16)
        ensures
            r == self.message.id,
    {
        self.message.id
    }

    /// The wrapped message.
    pub fn message(&self) -> (r: &Message)
        ensures
            r == &self.message,
    {
        &self.message
    }

    /// The question section of the query.
    pub fn questions(&self) -> (r: &Vec<Question>)
        ensures
            r == &self.message.questions,
    {
        &self.message.questions
    }

    /// Whether the client asked for recursion.
    pub fn recursion_desired(&self) -> (r: bool)
        ensures
            r == self.message.recursion_desired,
    {
        self.message.recursion_desired
    }

    /// The response skeleton for this request: same id and questions, marked
    /// as a response with recursion available and no error, with every
    /// record section empty.
    pub fn response(&self) -> (r: Response)
        ensures
            r.message.id == self.message.id,
            r.message.packet_type == PacketType::Response,
            r.message.op_code == self.message.op_code,
            r.message.authoritative_answer == self.message.authoritative_answer,
            r.message.truncation == self.message.truncation,
            r.message.recursion_desired == self.message.recursion_desired,
            r.message.recursion_available,
            r.message.response_code == ResponseCode::NoError,
            r.message.questions@ == self.message.questions@,
            r.message.answers@.len() == 0,
            r.message.authorities@.len() == 0,
            r.message.additional_records@.len() == 0,
    {
        let message = Message {
            id: self.message.id,
            packet_type: PacketType::Response,
            op_code: self.message.op_code,
            authoritative_answer: self.message.authoritative_answer,
            truncation: self.message.truncation,
            recursion_desired: self.message.recursion_desired,
            recursion_available: true,
            response_code: ResponseCode::NoError,
            questions: clone_questions(&self.message.questions),
            answers: Vec::new(),
            authorities: Vec::new(),
            additional_records: Vec::new(),
        };
        Response { message }
    }
}

} // verus!
