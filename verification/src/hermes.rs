//! Hermes: what the answer of a keeper to a write means.

use vstd::prelude::*;

use crate::proto::CmdId;
use crate::text::{decimal, u64_text};

verus! {

/// How long to wait before a keeper is dialled again, in milliseconds.
pub const RECONNECT_DELAY_MS: u64 = 2000;

/// How long to wait for a confirmation, in milliseconds.
pub const ACK_TIMEOUT_MS: u64 = 2000;

/// How many writes may wait for one keeper.
pub const CHANNEL_CAP: usize = 256;

/// The confirmation of a write.
#[derive(Debug, Clone, Copy, PartialEq, Eq, Structural)]
pub struct AckPayload {
    pub seq: u64,
    pub node_id: u64,
    pub ok: bool,
}

/// Why an answer does not confirm.
#[derive(Debug)]
pub enum AckError {
    /// The confirmation could not be read.
    Decode,
    /// The keeper refused the write with this number.
    Refused(u64),
    /// The keeper answered with an error.
    Keeper(String),
}

/// What an error of a confirmation says.
pub enum AckErrorView {
    Decode,
    Refused(u64),
    Keeper(Seq<char>),
}

impl View for AckError {
    type V = AckErrorView;

    open spec fn view(&self) -> AckErrorView {
        match self {
            AckError::Decode => AckErrorView::Decode,
            AckError::Refused(seq) => AckErrorView::Refused(*seq),
            AckError::Keeper(m) => AckErrorView::Keeper(m@),
        }
    }
}

impl AckErrorView {
    pub open spec fn text(self) -> Seq<char> {
        match self {
            AckErrorView::Decode => "decode AckPayload"@,
            AckErrorView::Refused(seq) => "keeper NAK seq="@ + decimal(seq as nat),
            AckErrorView::Keeper(m) => "keeper error: "@ + m,
        }
    }
}

impl AckError {
    pub fn message(&self) -> (r: String)
        ensures
            r@ == self@.text(),
    {
        match self {
            AckError::Decode => "decode AckPayload".to_string(),
            AckError::Refused(seq) => {
                let mut s = "keeper NAK seq=".to_string();
                let n = u64_text(*seq);
                s.append(n.as_str());
                s
            },
            AckError::Keeper(m) => {
                let mut s = "keeper error: ".to_string();
                s.append(m.as_str());
                s
            },
        }
    }
}

/// What an answer means: a plain answer confirms, a confirmation confirms if
/// it is empty or says so, an error does not, and anything else is taken to
/// confirm. `ack` and `error` are what the payload holds, as far as it could
/// be read.
pub open spec fn meaning(cmd: CmdId, empty: bool, ack: Option<AckPayload>, error: Seq<char>) -> Result<(), AckErrorView> {
    match cmd {
        CmdId::AckWrite => if empty {
            Ok(())
        } else {
            match ack {
                None => Err(AckErrorView::Decode),
                Some(a) => if a.ok {
                    Ok(())
                } else {
                    Err(AckErrorView::Refused(a.seq))
                },
            }
        },
        CmdId::ErrorReply => Err(AckErrorView::Keeper(error)),
        _ => Ok(()),
    }
}

/// What the answer of a keeper to a write means.
pub fn read_ack(cmd: CmdId, empty: bool, ack: Option<AckPayload>, error: &str) -> (r: Result<(), AckError>)
    ensures
        match meaning(cmd, empty, ack, error@) {
            Ok(_) => r is Ok,
            Err(e) => r matches Err(x) && x@ == e,
        },
{
    match cmd {
        CmdId::AckWrite => {
            if empty {
                return Ok(());
            }
            match ack {
                None => Err(AckError::Decode),
                Some(a) => if a.ok {
                    Ok(())
                } else {
                    Err(AckError::Refused(a.seq))
                },
            }
        },
        CmdId::ErrorReply => Err(AckError::Keeper(error.to_string())),
        _ => Ok(()),
    }
}

/// A write is confirmed by every answer but an error and a confirmation that
/// says no or cannot be read.
pub proof fn law_answers_confirm(cmd: CmdId, empty: bool, ack: Option<AckPayload>, error: Seq<char>)
    ensures
        meaning(cmd, empty, ack, error) is Err <==> cmd == CmdId::ErrorReply || cmd == CmdId::AckWrite && !empty && (ack is None
            || !ack->0.ok),
        meaning(CmdId::ErrorReply, empty, ack, error) == Err::<(), AckErrorView>(AckErrorView::Keeper(error)),
        ack is Some && !ack->0.ok ==> meaning(CmdId::AckWrite, false, ack, error) == Err::<(), AckErrorView>(
            AckErrorView::Refused(ack->0.seq),
        ),
{
}

} // verus!
