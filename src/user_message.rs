//! Game-defined messages: the registry of their ids and lengths, and the codec
//! that delimits and copies their payloads.
use vstd::prelude::*;

use crate::bytes::{append_bytes, read_bytes, take_bytes};
use crate::error::ErrorKind;

verus! {

/// How a game registered a message id: a length of 0 or more fixes the
/// payload size, a negative one means a length byte comes first.
#[derive(Debug)]
pub struct UserMsgReg {
    pub index: u8,
    pub length: i8,
    pub name: Vec<u8>,
}

pub struct RegModel {
    pub index: u8,
    pub length: i8,
    pub name: Seq<u8>,
}

impl View for UserMsgReg {
    type V = RegModel;

    open spec fn view(&self) -> RegModel {
        RegModel { index: self.index, length: self.length, name: self.name@ }
    }
}

/// Registrations by message id, one slot for each of the 256 ids.
pub struct UserMessageRegistry {
    pub regs: Vec<Option<UserMsgReg>>,
}

pub open spec fn reg_view(r: Option<UserMsgReg>) -> Option<RegModel> {
    match r {
        Some(x) => Some(x@),
        None => None,
    }
}

impl View for UserMessageRegistry {
    type V = Seq<Option<RegModel>>;

    open spec fn view(&self) -> Seq<Option<RegModel>> {
        self.regs@.map_values(|r: Option<UserMsgReg>| reg_view(r))
    }
}

impl UserMessageRegistry {
    pub open spec fn wf(&self) -> bool {
        self.regs@.len() == 256
    }

    /// A registry with no id registered.
    pub fn new() -> (r: Self)
        ensures
            r.wf(),
            r@ == Seq::new(256, |i: int| None::<RegModel>),
    {
        let mut regs: Vec<Option<UserMsgReg>> = Vec::new();
        let mut i: usize = 0;
        while i < 256
            invariant
                i <= 256,
                regs@.len() == i,
                forall|k: int| 0 <= k < i ==> #[trigger] regs@[k] is None,
            decreases 256 - i,
        {
            regs.push(None);
            i = i + 1;
        }
        let r = UserMessageRegistry { regs };
        assert(r@ =~= Seq::new(256, |i: int| None::<RegModel>));
        r
    }

    /// The registration of `id`.
    pub fn get(&self, id: u8) -> (r: Option<&UserMsgReg>)
        requires
            self.wf(),
        ensures
            match r {
                Some(x) => self@[id as int] == Some(x@),
                None => self@[id as int] is None,
            },
    {
        match &self.regs[id as usize] {
            Some(x) => Some(x),
            None => None,
        }
    }

    /// Records `reg` under its index, in place of what was there.
    pub fn register(&mut self, reg: UserMsgReg)
        requires
            old(self).wf(),
        ensures
            final(self).wf(),
            final(self)@ == old(self)@.update(reg.index as int, Some(reg@)),
    {
        let ghost v = reg@;
        let i = reg.index as usize;
        self.regs.set(i, Some(reg));
        assert(self@ =~= old(self)@.update(i as int, Some(v)));
    }
}

/// A game-defined message: its wire id and its payload.
#[derive(Debug)]
pub struct UserMessage {
    pub id: u8,
    pub payload: Vec<u8>,
}

pub struct UserMessageModel {
    pub id: u8,
    pub payload: Seq<u8>,
}

impl View for UserMessage {
    type V = UserMessageModel;

    open spec fn view(&self) -> UserMessageModel {
        UserMessageModel { id: self.id, payload: self.payload@ }
    }
}

/// A payload after the type byte and the bytes it takes: the registered
/// length, or a length byte and that many bytes.
pub open spec fn parse_user_message(b: Seq<u8>, id: u8, regs: Seq<Option<RegModel>>) -> Result<
    (Seq<u8>, nat),
    ErrorKind,
> {
    match regs[id as int] {
        None => Err(ErrorKind::UnknownUserMessage),
        Some(r) => if r.length >= 0 {
            match take_bytes(b, 0, r.length as int) {
                Ok((t, p)) => Ok((t, p as nat)),
                Err(e) => Err(e),
            }
        } else if b.len() < 1 {
            Err(ErrorKind::ShortRead)
        } else {
            match take_bytes(b, 1, b[0] as int) {
                Ok((t, p)) => Ok((t, p as nat)),
                Err(e) => Err(e),
            }
        },
    }
}

/// The whole message, id first; a variable payload gets a length byte from its own length.
pub open spec fn encode_user_message(m: UserMessageModel, regs: Seq<Option<RegModel>>) -> Result<
    Seq<u8>,
    ErrorKind,
> {
    match regs[m.id as int] {
        None => Err(ErrorKind::UnknownUserMessage),
        Some(r) => if r.length >= 0 {
            if m.payload.len() == r.length {
                Ok(seq![m.id] + m.payload)
            } else {
                Err(ErrorKind::ValueMismatch)
            }
        } else if m.payload.len() <= 255 {
            Ok(seq![m.id, m.payload.len() as u8] + m.payload)
        } else {
            Err(ErrorKind::EncodeOverflow)
        },
    }
}

impl UserMessage {
    /// Reads the payload of message `id` from the start of `i`; gives the bytes it took.
    pub fn parse(i: &[u8], id: u8, custom_messages: &UserMessageRegistry) -> (r: Result<
        (UserMessage, usize),
        ErrorKind,
    >)
        requires
            custom_messages.wf(),
        ensures
            match r {
                Ok((m, n)) => m.id == id && parse_user_message(i@, id, custom_messages@) == Ok::<
                    _,
                    ErrorKind,
                >((m.payload@, n as nat)) && n <= i@.len(),
                Err(e) => parse_user_message(i@, id, custom_messages@) == Err::<
                    (Seq<u8>, nat),
                    ErrorKind,
                >(e),
            },
    {
        let reg = match custom_messages.get(id) {
            Some(x) => x,
            None => {
                return Err(ErrorKind::UnknownUserMessage);
            },
        };
        let (payload, n) = if reg.length >= 0 {
            match read_bytes(i, 0, reg.length as usize) {
                Ok(x) => x,
                Err(e) => {
                    return Err(e);
                },
            }
        } else {
            if i.len() < 1 {
                return Err(ErrorKind::ShortRead);
            }
            match read_bytes(i, 1, i[0] as usize) {
                Ok(x) => x,
                Err(e) => {
                    return Err(e);
                },
            }
        };
        Ok((UserMessage { id, payload }, n))
    }

    /// The message, id first.
    pub fn write(i: &UserMessage, custom_messages: &UserMessageRegistry) -> (r: Result<
        Vec<u8>,
        ErrorKind,
    >)
        requires
            custom_messages.wf(),
        ensures
            match encode_user_message(i@, custom_messages@) {
                Ok(bs) => r is Ok && r->Ok_0@ == bs,
                Err(e) => r == Err::<Vec<u8>, ErrorKind>(e),
            },
    {
        let reg = match custom_messages.get(i.id) {
            Some(x) => x,
            None => {
                return Err(ErrorKind::UnknownUserMessage);
            },
        };
        let mut out: Vec<u8> = Vec::new();
        out.push(i.id);
        if reg.length >= 0 {
            if i.payload.len() != reg.length as usize {
                return Err(ErrorKind::ValueMismatch);
            }
        } else {
            if i.payload.len() > 255 {
                return Err(ErrorKind::EncodeOverflow);
            }
            out.push(i.payload.len() as u8);
        }
        append_bytes(&mut out, i.payload.as_slice());
        proof {
            if reg.length >= 0 {
                assert(out@ =~= seq![i.id] + i.payload@);
            } else {
                assert(out@ =~= seq![i.id, i.payload@.len() as u8] + i.payload@);
            }
        }
        Ok(out)
    }
}

} // verus!
