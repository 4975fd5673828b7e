//! The node's line commands: a line is split into words at ASCII white
//! space, the first word names the command and the rest are its arguments.
//! Numbers are unsigned decimals.
use vstd::prelude::*;
use vstd::string::StringSliceAdditionalSpecFns;

verus! {

/// A parsed command line.
#[derive(Debug)]
pub enum Command {
    /// `help`: list the commands.
    Help,
    /// `quit` or `exit`: end the session.
    Quit,
    /// `genesis K SUBSIDY AMOUNT FOUNDER`: bring up the ledger.
    Genesis { k: u16, subsidy: u64, amount: u64, founder: u64 },
    /// `send FROM AMOUNT TO`: a transfer in a block of its own, now.
    Send { from: u64, amount: u64, to: u64 },
    /// `pool FROM AMOUNT TO`: a transfer queued in the mempool.
    Pool { from: u64, amount: u64, to: u64 },
    /// `pending`: the number of queued transactions.
    Pending,
    /// `produce`: pack the mempool into a block.
    Produce,
    /// `balance SEED`: an actor's balance.
    Balance { seed: u64 },
    /// `tip`: the selected tip.
    Tip,
    /// `tips`: every tip.
    Tips,
    /// `len`: the number of blocks.
    Len,
    /// `save PATH`: write a snapshot.
    Save { path: Vec<u8> },
    /// `load PATH`: load a snapshot.
    Load { path: Vec<u8> },
    /// `origin [CODE]`: show, or declare, the node's origin.
    Origin { code: Option<Vec<u8>> },
    /// `origins`: the origins observed so far.
    Origins,
}

/// What a command line holds, as plain values.
pub enum CommandView {
    Help,
    Quit,
    Genesis { k: u16, subsidy: u64, amount: u64, founder: u64 },
    Send { from: u64, amount: u64, to: u64 },
    Pool { from: u64, amount: u64, to: u64 },
    Pending,
    Produce,
    Balance { seed: u64 },
    Tip,
    Tips,
    Len,
    Save { path: Seq<u8> },
    Load { path: Seq<u8> },
    Origin { code: Option<Seq<u8>> },
    Origins,
}

/// Why a command line could not be parsed.
#[derive(Clone, Copy, Debug, PartialEq, Eq, Structural)]
pub enum CommandError {
    /// The line holds no word.
    Empty,
    /// The first word names no command.
    Unknown,
    /// The command was given the wrong number of arguments; it takes
    /// between `min` and `max`.
    Arity { min: u8, max: u8 },
    /// An argument that must be a number is not a decimal that fits.
    NotANumber,
}

impl Command {
    /// The command as plain values.
    pub open spec fn view(&self) -> CommandView {
        match self {
            Command::Help => CommandView::Help,
            Command::Quit => CommandView::Quit,
            Command::Genesis { k, subsidy, amount, founder } => CommandView::Genesis {
                k: *k,
                subsidy: *subsidy,
                amount: *amount,
                founder: *founder,
            },
            Command::Send { from, amount, to } => CommandView::Send { from: *from, amount: *amount, to: *to },
            Command::Pool { from, amount, to } => CommandView::Pool { from: *from, amount: *amount, to: *to },
            Command::Pending => CommandView::Pending,
            Command::Produce => CommandView::Produce,
            Command::Balance { seed } => CommandView::Balance { seed: *seed },
            Command::Tip => CommandView::Tip,
            Command::Tips => CommandView::Tips,
            Command::Len => CommandView::Len,
            Command::Save { path } => CommandView::Save { path: path@ },
            Command::Load { path } => CommandView::Load { path: path@ },
            Command::Origin { code } => CommandView::Origin {
                code: match code {
                    Some(c) => Some(c@),
                    None => None,
                },
            },
            Command::Origins => CommandView::Origins,
        }
    }
}

// ---------------------------------------------------------------------------
// Words.

/// ASCII white space: space, tab, line feed, vertical tab, form feed and
/// carriage return.
pub open spec fn is_space(b: u8) -> bool {
    b == 32 || (9 <= b && b <= 13)
}

/// The words of `s` after the word `cur` being read and the words `acc`
/// already complete: its maximal runs of bytes that are not white space.
pub open spec fn split_words(s: Seq<u8>, cur: Seq<u8>, acc: Seq<Seq<u8>>) -> Seq<Seq<u8>>
    decreases s.len(),
{
    let done = if cur.len() > 0 { acc.push(cur) } else { acc };
    if s.len() == 0 {
        done
    } else if is_space(s[0]) {
        split_words(s.subrange(1, s.len() as int), Seq::empty(), done)
    } else {
        split_words(s.subrange(1, s.len() as int), cur.push(s[0]), acc)
    }
}

/// The words of `s`, in order.
pub open spec fn words(s: Seq<u8>) -> Seq<Seq<u8>> {
    split_words(s, Seq::empty(), Seq::empty())
}

/// The byte lists of a list of byte vectors.
pub open spec fn byte_lists(v: Seq<Vec<u8>>) -> Seq<Seq<u8>> {
    Seq::new(v.len(), |i: int| v[i]@)
}

/// Split `s` into its words.
pub fn split(s: &[u8]) -> (r: Vec<Vec<u8>>)
    ensures
        byte_lists(r@) == words(s@),
{
    let mut acc: Vec<Vec<u8>> = Vec::new();
    let mut cur: Vec<u8> = Vec::new();
    let mut i: usize = 0;
    proof {
        assert(s@.subrange(0, s@.len() as int) =~= s@);
        assert(byte_lists(acc@) =~= Seq::<Seq<u8>>::empty());
    }
    while i < s.len()
        invariant
            i <= s@.len(),
            words(s@) == split_words(s@.subrange(i as int, s@.len() as int), cur@, byte_lists(acc@)),
        decreases s@.len() - i,
    {
        let b = s[i];
        let ghost rest = s@.subrange(i as int, s@.len() as int);
        proof {
            assert(rest[0] == b);
            assert(rest.subrange(1, rest.len() as int) =~= s@.subrange(i + 1, s@.len() as int));
        }
        if b == 32 || (9 <= b && b <= 13) {
            if cur.len() > 0 {
                let w = cur;
                let ghost before = byte_lists(acc@);
                acc.push(w);
                proof {
                    assert(byte_lists(acc@) =~= before.push(w@));
                }
                cur = Vec::new();
            }
            proof {
                assert(cur@ =~= Seq::<u8>::empty());
            }
        } else {
            cur.push(b);
        }
        i = i + 1;
    }
    if cur.len() > 0 {
        let ghost before = byte_lists(acc@);
        acc.push(cur);
        proof {
            assert(byte_lists(acc@) =~= before.push(cur@));
        }
    }
    acc
}

// ---------------------------------------------------------------------------
// Numbers.

/// `w` is a non-empty run of ASCII digits.
pub open spec fn is_decimal(w: Seq<u8>) -> bool {
    w.len() > 0 && forall|i: int| 0 <= i < w.len() ==> 48 <= #[trigger] w[i] <= 57
}

/// The value of the decimal digits `w`.
pub open spec fn dec_value(w: Seq<u8>) -> nat
    decreases w.len(),
{
    if w.len() == 0 {
        0
    } else {
        dec_value(w.drop_last()) * 10 + (w.last() - 48) as nat
    }
}

/// The number `w` writes, if it is a decimal below `bound`.
pub open spec fn number(w: Seq<u8>, bound: nat) -> Option<nat> {
    if is_decimal(w) && dec_value(w) < bound {
        Some(dec_value(w))
    } else {
        None
    }
}

/// A longer run of digits is worth at least as much.
proof fn lemma_dec_value_grows(w: Seq<u8>, i: int)
    requires
        is_decimal(w),
        0 <= i <= w.len(),
    ensures
        dec_value(w.subrange(0, i)) <= dec_value(w),
    decreases w.len() - i,
{
    if i < w.len() {
        lemma_dec_value_grows(w, i + 1);
        let p = w.subrange(0, i + 1);
        assert(p.drop_last() =~= w.subrange(0, i));
        assert(48 <= p.last());
    } else {
        assert(w.subrange(0, i) =~= w);
    }
}

/// The number `w` writes, if it is a decimal below `2^64`.
pub fn parse_u64(w: &[u8]) -> (r: Option<u64>)
    ensures
        match number(w@, 0x1_0000_0000_0000_0000) {
            Some(v) => r == Some(v as u64),
            None => r is None,
        },
{
    if w.len() == 0 {
        return None;
    }
    let mut acc: u64 = 0;
    let mut i: usize = 0;
    while i < w.len()
        invariant
            i <= w@.len(),
            w@.len() > 0,
            forall|j: int| 0 <= j < i ==> 48 <= #[trigger] w@[j] <= 57,
            acc as nat == dec_value(w@.subrange(0, i as int)),
        decreases w@.len() - i,
    {
        let b = w[i];
        let ghost p = w@.subrange(0, i + 1);
        proof {
            assert(p.drop_last() =~= w@.subrange(0, i as int));
        }
        if b < 48 || b > 57 {
            return None;
        }
        let d = (b - 48) as u64;
        if acc > (u64::MAX - d) / 10 {
            proof {
                assert forall|j: int| 0 <= j < i + 1 implies 48 <= #[trigger] p[j] <= 57 by {}
                if is_decimal(w@) {
                    lemma_dec_value_grows(w@, i + 1);
                }
                assert(dec_value(p) > u64::MAX);
            }
            return None;
        }
        acc = acc * 10 + d;
        i = i + 1;
    }
    proof {
        assert(w@.subrange(0, w@.len() as int) =~= w@);
    }
    Some(acc)
}

// ---------------------------------------------------------------------------
// Commands.

/// `w` is the keyword `kw`, written as its bytes.
fn is_keyword(w: &[u8], kw: &[u8]) -> (r: bool)
    ensures
        r == (w@ == kw@),
{
    if w.len() != kw.len() {
        return false;
    }
    let mut i: usize = 0;
    while i < w.len()
        invariant
            i <= w@.len(),
            w@.len() == kw@.len(),
            forall|j: int| 0 <= j < i ==> w@[j] == kw@[j],
        decreases w@.len() - i,
    {
        if w[i] != kw[i] {
            return false;
        }
        i = i + 1;
    }
    proof {
        assert(w@ =~= kw@);
    }
    true
}

/// The transfer command with arguments `a`, if they are three numbers.
pub open spec fn transfer_args(a: Seq<Seq<u8>>) -> Option<(u64, u64, u64)> {
    let bound = 0x1_0000_0000_0000_0000nat;
    match (number(a[0], bound), number(a[1], bound), number(a[2], bound)) {
        (Some(x), Some(y), Some(z)) => Some((x as u64, y as u64, z as u64)),
        _ => None,
    }
}

/// The command the words `ws` give.
pub open spec fn command_of(ws: Seq<Seq<u8>>) -> Result<CommandView, CommandError> {
    let bound = 0x1_0000_0000_0000_0000nat;
    if ws.len() == 0 {
        Err(CommandError::Empty)
    } else {
        let c = ws[0];
        let a = ws.subrange(1, ws.len() as int);
        let n = a.len();
        if c == seq![104u8, 101u8, 108u8, 112u8] { // help
            if n == 0 { Ok(CommandView::Help) } else { Err(CommandError::Arity { min: 0, max: 0 }) }
        } else if c == seq![113u8, 117u8, 105u8, 116u8] || c == seq![101u8, 120u8, 105u8, 116u8] { // quit, exit
            if n == 0 { Ok(CommandView::Quit) } else { Err(CommandError::Arity { min: 0, max: 0 }) }
        } else if c == seq![103u8, 101u8, 110u8, 101u8, 115u8, 105u8, 115u8] { // genesis
            if n != 4 {
                Err(CommandError::Arity { min: 4, max: 4 })
            } else {
                match (number(a[0], 0x1_0000), number(a[1], bound), number(a[2], bound), number(a[3], bound)) {
                    (Some(k), Some(s), Some(m), Some(f)) => Ok(
                        CommandView::Genesis { k: k as u16, subsidy: s as u64, amount: m as u64, founder: f as u64 },
                    ),
                    _ => Err(CommandError::NotANumber),
                }
            }
        } else if c == seq![115u8, 101u8, 110u8, 100u8] { // send
            if n != 3 {
                Err(CommandError::Arity { min: 3, max: 3 })
            } else {
                match transfer_args(a) {
                    Some((x, y, z)) => Ok(CommandView::Send { from: x, amount: y, to: z }),
                    None => Err(CommandError::NotANumber),
                }
            }
        } else if c == seq![112u8, 111u8, 111u8, 108u8] { // pool
            if n != 3 {
                Err(CommandError::Arity { min: 3, max: 3 })
            } else {
                match transfer_args(a) {
                    Some((x, y, z)) => Ok(CommandView::Pool { from: x, amount: y, to: z }),
                    None => Err(CommandError::NotANumber),
                }
            }
        } else if c == seq![112u8, 101u8, 110u8, 100u8, 105u8, 110u8, 103u8] { // pending
            if n == 0 { Ok(CommandView::Pending) } else { Err(CommandError::Arity { min: 0, max: 0 }) }
        } else if c == seq![112u8, 114u8, 111u8, 100u8, 117u8, 99u8, 101u8] { // produce
            if n == 0 { Ok(CommandView::Produce) } else { Err(CommandError::Arity { min: 0, max: 0 }) }
        } else if c == seq![98u8, 97u8, 108u8, 97u8, 110u8, 99u8, 101u8] { // balance
            if n != 1 {
                Err(CommandError::Arity { min: 1, max: 1 })
            } else {
                match number(a[0], bound) {
                    Some(x) => Ok(CommandView::Balance { seed: x as u64 }),
                    None => Err(CommandError::NotANumber),
                }
            }
        } else if c == seq![116u8, 105u8, 112u8] { // tip
            if n == 0 { Ok(CommandView::Tip) } else { Err(CommandError::Arity { min: 0, max: 0 }) }
        } else if c == seq![116u8, 105u8, 112u8, 115u8] { // tips
            if n == 0 { Ok(CommandView::Tips) } else { Err(CommandError::Arity { min: 0, max: 0 }) }
        } else if c == seq![108u8, 101u8, 110u8] { // len
            if n == 0 { Ok(CommandView::Len) } else { Err(CommandError::Arity { min: 0, max: 0 }) }
        } else if c == seq![115u8, 97u8, 118u8, 101u8] { // save
            if n == 1 { Ok(CommandView::Save { path: a[0] }) } else { Err(CommandError::Arity { min: 1, max: 1 }) }
        } else if c == seq![108u8, 111u8, 97u8, 100u8] { // load
            if n == 1 { Ok(CommandView::Load { path: a[0] }) } else { Err(CommandError::Arity { min: 1, max: 1 }) }
        } else if c == seq![111u8, 114u8, 105u8, 103u8, 105u8, 110u8] { // origin
            if n == 0 {
                Ok(CommandView::Origin { code: None })
            } else if n == 1 {
                Ok(CommandView::Origin { code: Some(a[0]) })
            } else {
                Err(CommandError::Arity { min: 0, max: 1 })
            }
        } else if c == seq![111u8, 114u8, 105u8, 103u8, 105u8, 110u8, 115u8] { // origins
            if n == 0 { Ok(CommandView::Origins) } else { Err(CommandError::Arity { min: 0, max: 0 }) }
        } else {
            Err(CommandError::Unknown)
        }
    }
}

/// The last word of `ws`, taken out.
fn take_last(ws: Vec<Vec<u8>>) -> (r: Vec<u8>)
    requires
        ws@.len() > 0,
    ensures
        r@ == ws@[ws@.len() - 1]@,
{
    let mut ws = ws;
    let w = ws.pop();
    match w {
        Some(w) => w,
        None => Vec::new(),
    }
}

/// The three numbers of a transfer command, if they are numbers.
fn transfer_numbers(ws: &Vec<Vec<u8>>) -> (r: Option<(u64, u64, u64)>)
    requires
        ws@.len() == 4,
    ensures
        r == transfer_args(byte_lists(ws@).subrange(1, 4)),
{
    let ghost a = byte_lists(ws@).subrange(1, 4);
    proof {
        assert(a[0] == ws@[1]@ && a[1] == ws@[2]@ && a[2] == ws@[3]@);
    }
    match (parse_u64(ws[1].as_slice()), parse_u64(ws[2].as_slice()), parse_u64(ws[3].as_slice())) {
        (Some(x), Some(y), Some(z)) => Some((x, y, z)),
        _ => None,
    }
}

/// Parse a command line.
pub fn parse_command(line: &str) -> (r: Result<Command, CommandError>)
    ensures
        match r {
            Ok(c) => command_of(words(line.spec_bytes())) == Ok::<CommandView, CommandError>(c.view()),
            Err(e) => command_of(words(line.spec_bytes())) == Err::<CommandView, CommandError>(e),
        },
{
    let ws = split(line.as_bytes());
    let ghost wv = byte_lists(ws@);
    if ws.len() == 0 {
        return Err(CommandError::Empty);
    }
    let n = ws.len() - 1;
    let ghost a = wv.subrange(1, wv.len() as int);
    proof {
        assert(wv[0] == ws@[0]@);
        assert forall|j: int| 0 <= j < a.len() implies #[trigger] a[j] == ws@[j + 1]@ by {}
    }
    let c = ws[0].as_slice();
    if is_keyword(c, &[104, 101, 108, 112]) {
        // help
        return if n == 0 { Ok(Command::Help) } else { Err(CommandError::Arity { min: 0, max: 0 }) };
    }
    if is_keyword(c, &[113, 117, 105, 116]) || is_keyword(c, &[101, 120, 105, 116]) {
        // quit, exit
        return if n == 0 { Ok(Command::Quit) } else { Err(CommandError::Arity { min: 0, max: 0 }) };
    }
    if is_keyword(c, &[103, 101, 110, 101, 115, 105, 115]) {
        // genesis
        if n != 4 {
            return Err(CommandError::Arity { min: 4, max: 4 });
        }
        let k = parse_u64(ws[1].as_slice());
        let s = parse_u64(ws[2].as_slice());
        let m = parse_u64(ws[3].as_slice());
        let f = parse_u64(ws[4].as_slice());
        return match (k, s, m, f) {
            (Some(k), Some(s), Some(m), Some(f)) => if k <= 0xffff {
                Ok(Command::Genesis { k: k as u16, subsidy: s, amount: m, founder: f })
            } else {
                Err(CommandError::NotANumber)
            },
            _ => Err(CommandError::NotANumber),
        };
    }
    if is_keyword(c, &[115, 101, 110, 100]) || is_keyword(c, &[112, 111, 111, 108]) {
        // send, pool
        let is_send = is_keyword(c, &[115, 101, 110, 100]);
        if n != 3 {
            return Err(CommandError::Arity { min: 3, max: 3 });
        }
        return match transfer_numbers(&ws) {
            Some((x, y, z)) => if is_send {
                Ok(Command::Send { from: x, amount: y, to: z })
            } else {
                Ok(Command::Pool { from: x, amount: y, to: z })
            },
            None => Err(CommandError::NotANumber),
        };
    }
    if is_keyword(c, &[112, 101, 110, 100, 105, 110, 103]) {
        // pending
        return if n == 0 { Ok(Command::Pending) } else { Err(CommandError::Arity { min: 0, max: 0 }) };
    }
    if is_keyword(c, &[112, 114, 111, 100, 117, 99, 101]) {
        // produce
        return if n == 0 { Ok(Command::Produce) } else { Err(CommandError::Arity { min: 0, max: 0 }) };
    }
    if is_keyword(c, &[98, 97, 108, 97, 110, 99, 101]) {
        // balance
        if n != 1 {
            return Err(CommandError::Arity { min: 1, max: 1 });
        }
        return match parse_u64(ws[1].as_slice()) {
            Some(x) => Ok(Command::Balance { seed: x }),
            None => Err(CommandError::NotANumber),
        };
    }
    if is_keyword(c, &[116, 105, 112]) {
        // tip
        return if n == 0 { Ok(Command::Tip) } else { Err(CommandError::Arity { min: 0, max: 0 }) };
    }
    if is_keyword(c, &[116, 105, 112, 115]) {
        // tips
        return if n == 0 { Ok(Command::Tips) } else { Err(CommandError::Arity { min: 0, max: 0 }) };
    }
    if is_keyword(c, &[108, 101, 110]) {
        // len
        return if n == 0 { Ok(Command::Len) } else { Err(CommandError::Arity { min: 0, max: 0 }) };
    }
    let save = is_keyword(c, &[115, 97, 118, 101]);
    let load = is_keyword(c, &[108, 111, 97, 100]);
    if save || load {
        // save, load
        if n != 1 {
            return Err(CommandError::Arity { min: 1, max: 1 });
        }
        let w = take_last(ws);
        return if save {
            Ok(Command::Save { path: w })
        } else {
            Ok(Command::Load { path: w })
        };
    }
    if is_keyword(c, &[111, 114, 105, 103, 105, 110]) {
        // origin
        return if n == 0 {
            Ok(Command::Origin { code: None })
        } else if n == 1 {
            Ok(Command::Origin { code: Some(take_last(ws)) })
        } else {
            Err(CommandError::Arity { min: 0, max: 1 })
        };
    }
    if is_keyword(c, &[111, 114, 105, 103, 105, 110, 115]) {
        // origins
        return if n == 0 { Ok(Command::Origins) } else { Err(CommandError::Arity { min: 0, max: 0 }) };
    }
    Err(CommandError::Unknown)
}

} // verus!
