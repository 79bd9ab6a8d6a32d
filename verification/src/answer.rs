//! Turns a prompt into the two-message exchange the completion service
//! expects, and reads the service's answer back out.
//!
//! The service call itself is a network exchange and stays outside the
//! library; this module fixes what is sent and states exactly which answer
//! is returned for every shape of response.

use vstd::prelude::*;
use vstd::string::StrSliceExecFns;
use vstd::string::StringSliceAdditionalSpecFns;

use crate::errors::Error;

verus! {

/// The fixed system instruction of every exchange.
pub open spec fn system_instruction() -> Seq<u8> {
    "You answer questions about Forthright documents.".spec_bytes()
}

/// The system instruction as bytes, for the caller that performs the
/// exchange.
pub fn system_instruction_bytes() -> (r: Vec<u8>)
    ensures
        r@ == system_instruction(),
{
    ("You answer questions about Forthright documents.").as_bytes_vec()
}

/// The answer text of a completion response, given as the choices'
/// optional message contents in order. A response without choices and a
/// first choice without content are distinct service-contract violations:
/// the first is reported as no completion, the second as no completion
/// message; otherwise the answer is exactly the first choice's content.
pub fn first_choice_content(choices: Vec<Option<Vec<u8>>>) -> (r: Result<Vec<u8>, Error>)
    ensures
        (r == Err::<Vec<u8>, Error>(Error::NoCompletion)) <==> choices@.len() == 0,
        (r == Err::<Vec<u8>, Error>(Error::NoCompletionMessage)) <==> (choices@.len() > 0
            && choices@[0] is None),
        (choices@.len() > 0 && choices@[0] is Some) ==> (r matches Ok(c) && c@
            == choices@[0]->0@),
        r is Ok <==> (choices@.len() > 0 && choices@[0] is Some),
{
    let mut choices = choices;
    if choices.len() == 0 {
        return Err(Error::NoCompletion);
    }
    let first = choices.remove(0);
    match first {
        None => Err(Error::NoCompletionMessage),
        Some(content) => Ok(content),
    }
}

} // verus!
