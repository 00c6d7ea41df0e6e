//! The serial port.

use vstd::prelude::*;
use vstd::utf8::encode_utf8;
use crate::pic::PortWrite;

verus! {

pub const COM1: u16 = 0x3f8;

/// A serial port, by the first of its registers' ports.
#[derive(Clone, Copy, Debug, PartialEq, Eq, Structural)]
pub struct SerialPort {
    pub port: u16,
}

/// Bytes with a carriage return before each line feed.
pub open spec fn on_the_wire(bytes: Seq<u8>) -> Seq<u8>
    decreases bytes.len(),
{
    if bytes.len() == 0 {
        seq![]
    } else if bytes.last() == 0x0a {
        on_the_wire(bytes.drop_last()).push(0x0d).push(0x0a)
    } else {
        on_the_wire(bytes.drop_last()).push(bytes.last())
    }
}

impl SerialPort {
    /// All eight of its ports are there.
    pub open spec fn wf(self) -> bool {
        self.port <= 0xfff8
    }

    pub fn new(port: u16) -> (r: Self)
        ensures
            r.port == port,
    {
        SerialPort { port }
    }

    /// What sets the port up: no interrupts, 38400 baud, eight bits without parity
    /// and one stop bit, the queues cleared and on, and the lines ready.
    pub fn init(&self) -> (r: Vec<PortWrite>)
        requires
            self.wf(),
        ensures
            r@ == seq![
                PortWrite { port: (self.port + 1) as u16, value: 0 },
                PortWrite { port: (self.port + 3) as u16, value: 0x80 },
                PortWrite { port: self.port, value: 3 },
                PortWrite { port: (self.port + 1) as u16, value: 0 },
                PortWrite { port: (self.port + 3) as u16, value: 3 },
                PortWrite { port: (self.port + 2) as u16, value: 0xc7 },
                PortWrite { port: (self.port + 4) as u16, value: 0x0b },
            ],
    {
        let r: Vec<PortWrite> = vec![
            PortWrite { port: self.port + 1, value: 0 },
            PortWrite { port: self.port + 3, value: 0x80 },
            PortWrite { port: self.port, value: 3 },
            PortWrite { port: self.port + 1, value: 0 },
            PortWrite { port: self.port + 3, value: 3 },
            PortWrite { port: self.port + 2, value: 0xc7 },
            PortWrite { port: self.port + 4, value: 0x0b },
        ];
        r
    }

    /// Whether the line status says that another byte can be sent.
    pub fn is_transmit_empty(&self, line_status: u8) -> (r: bool)
        ensures
            r == (line_status / 32 % 2 == 1),
    {
        line_status / 32 % 2 == 1
    }

    /// What sends a byte, once the line status says that it can be sent.
    pub fn write_byte(&self, byte: u8, line_status: u8) -> (r: Option<PortWrite>)
        ensures
            r == if line_status / 32 % 2 == 1 {
                Some(PortWrite { port: self.port, value: byte })
            } else {
                None
            },
    {
        if self.is_transmit_empty(line_status) {
            Some(PortWrite { port: self.port, value: byte })
        } else {
            None
        }
    }

    /// The byte that the receiver has waiting, if the line status says that there is
    /// one. It is not waited for.
    pub fn try_read_byte<F: Fn(u16) -> u8>(&self, read: F) -> (r: Option<u8>)
        requires
            self.wf(),
            forall|p: u16| #[trigger] read.requires((p,)),
        ensures
            exists|line_status: u8|
                #[trigger] read.ensures(((self.port + 5) as u16,), line_status) && (r is Some <==>
                    line_status % 2 == 1),
            r matches Some(b) ==> read.ensures((self.port,), b),
    {
        let line_status: u8 = read(self.port + 5);
        if line_status % 2 == 1 {
            Some(read(self.port))
        } else {
            None
        }
    }

    /// The bytes to send for a text.
    pub fn write_str(&self, text: &str) -> (r: Vec<u8>)
        ensures
            r@ == on_the_wire(encode_utf8(text@)),
    {
        let bytes: &[u8] = text.as_bytes();
        let mut r: Vec<u8> = Vec::new();
        let mut i: usize = 0;
        while i < bytes.len()
            invariant
                i <= bytes@.len(),
                r@ == on_the_wire(bytes@.take(i as int)),
            decreases bytes@.len() - i,
        {
            proof {
                assert(bytes@.take(i + 1).drop_last() =~= bytes@.take(i as int));
            }
            if bytes[i] == 0x0a {
                r.push(0x0d);
            }
            r.push(bytes[i]);
            i += 1;
        }
        assert(bytes@.take(i as int) =~= bytes@);
        r
    }
}

/// What is sent, byte by byte: a line feed goes out as a carriage return and a line feed,
/// any other byte as it is, and texts that follow each other go out one after the other.
pub proof fn law_wire(a: Seq<u8>, b: Seq<u8>, x: u8)
    ensures
        on_the_wire(Seq::empty()) == Seq::<u8>::empty(),
        on_the_wire(seq![0x0au8]) == seq![0x0du8, 0x0a],
        x != 0x0a ==> on_the_wire(seq![x]) == seq![x],
        on_the_wire(a + b) == on_the_wire(a) + on_the_wire(b),
    decreases b.len(),
{
    let none = Seq::<u8>::empty();
    reveal_with_fuel(on_the_wire, 2);
    assert(seq![0x0au8].drop_last() =~= none);
    assert(seq![x].drop_last() =~= none);
    assert(on_the_wire(seq![0x0au8]) =~= seq![0x0du8, 0x0a]);
    assert(x != 0x0a ==> on_the_wire(seq![x]) =~= seq![x]);
    if b.len() == 0 {
        assert(a + b =~= a);
        assert(on_the_wire(a) + on_the_wire(b) =~= on_the_wire(a));
    } else {
        law_wire(a, b.drop_last(), x);
        assert((a + b).drop_last() =~= a + b.drop_last());
        assert(on_the_wire(a + b) =~= on_the_wire(a) + on_the_wire(b));
    }
}

} // verus!
