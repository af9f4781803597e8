//! What a program that was run has answered.
use vstd::prelude::*;
use vstd::string::*;

use crate::error::Error;
use crate::text::{optional_text, trim, trimmed};

verus! {

/// What a program wrote, and whether it succeeded.
#[derive(Debug, Clone)]
pub struct Reply {
    pub stdout: String,
    pub stderr: String,
    pub success: bool,
}

/// The view of a `Reply`.
pub struct ReplyModel {
    pub stdout: Seq<char>,
    pub stderr: Seq<char>,
    pub success: bool,
}

impl View for Reply {
    type V = ReplyModel;

    open spec fn view(&self) -> ReplyModel {
        ReplyModel { stdout: self.stdout@, stderr: self.stderr@, success: self.success }
    }
}

/// The reply, where there is one.
pub open spec fn reply_view(reply: Option<Reply>) -> Option<ReplyModel> {
    match reply {
        Some(reply) => Some(reply@),
        None => None,
    }
}

/// What running `program` gives: all that it wrote, without whitespace at either
/// end. `None` stands for a program that could not be started.
pub open spec fn answer(program: Seq<char>, reply: Option<ReplyModel>) -> Result<
    Seq<char>,
    Seq<char>,
> {
    match reply {
        Some(reply) => {
            let text = trim(reply.stdout + reply.stderr);
            if reply.success {
                Ok(text)
            } else {
                Err(program + " failed: "@ + text)
            }
        },
        None => Err("failed to run "@ + program),
    }
}

/// What running `program` gives where failures do not matter.
pub open spec fn optional_answer(reply: Option<ReplyModel>) -> Option<Seq<char>> {
    match reply {
        Some(reply) => if reply.success {
            Some(trim(reply.stdout + reply.stderr))
        } else {
            None
        },
        None => None,
    }
}

/// What running `program` gives.
pub fn run(program: &str, reply: &Option<Reply>) -> (r: Result<String, Error>)
    ensures
        match r {
            Ok(text) => answer(program@, reply_view(*reply)) == Ok::<Seq<char>, Seq<char>>(text@),
            Err(e) => answer(program@, reply_view(*reply)) == Err::<Seq<char>, Seq<char>>(e@),
        },
{
    match reply {
        Some(reply) => {
            let mut combined = reply.stdout.clone();
            combined.append(reply.stderr.as_str());
            let text = trimmed(combined.as_str());
            if reply.success {
                Ok(text)
            } else {
                let mut message = program.to_owned();
                message.append(" failed: ");
                message.append(text.as_str());
                Err(Error::new(message))
            }
        },
        None => {
            let mut message = "failed to run ".to_owned();
            message.append(program);
            Err(Error::new(message))
        },
    }
}

/// What running a program gives where failures do not matter.
pub fn try_run(program: &str, reply: &Option<Reply>) -> (r: Option<String>)
    ensures
        optional_text(r) == optional_answer(reply_view(*reply)),
{
    match run(program, reply) {
        Ok(text) => Some(text),
        Err(_) => None,
    }
}

} // verus!
