//! The parts of a DNS message, leaves first: names, the header, questions,
//! resource records, and the message that holds them.

pub mod dns_name;
pub mod dns_header;
pub mod dns_question;
pub mod dns_rdata;
pub mod dns_answer;
pub mod dns_rr;
pub mod dns_message;
