//! The 8250 serial ports: what is written to which I/O port.

use vstd::prelude::*;

verus! {

/// Number of serial ports that the firmware can report.
pub const PORTS: usize = 4;

/// One write of a byte to an I/O port.
#[derive(Clone, Copy, Debug, PartialEq, Eq, Structural)]
pub struct PortWrite {
    pub port: u16,
    pub value: u8,
}

/// What setting up the 8250 at I/O address `port` writes: 115200 baud, 8
/// bits, no parity, one stop bit.
pub open spec fn setup_of(port: u16) -> Seq<PortWrite> {
    seq![
        // Disable all interrupts.
        PortWrite { port: port.wrapping_add(1), value: 0x00 },
        // Enable the divisor latch.
        PortWrite { port: port.wrapping_add(3), value: 0x80 },
        // Divisor 1: low byte, then high byte.
        PortWrite { port, value: 0x01 },
        PortWrite { port: port.wrapping_add(1), value: 0x00 },
        // 8 bits, no parity, one stop bit.
        PortWrite { port: port.wrapping_add(3), value: 0x03 },
        // RTS and DSR set.
        PortWrite { port: port.wrapping_add(4), value: 0x0b },
    ]
}

/// What sending the byte `byte` to one port writes, where the port is there:
/// a carriage return goes out before every line feed.
pub open spec fn sent_to(device: Option<u16>, byte: u8) -> Seq<PortWrite> {
    match device {
        None => Seq::empty(),
        Some(port) => if byte == 0x0a {
            seq![PortWrite { port, value: 0x0d }, PortWrite { port, value: byte }]
        } else {
            seq![PortWrite { port, value: byte }]
        },
    }
}

/// Up to two writes, in their order.
pub open spec fn writes_of(pair: (Option<PortWrite>, Option<PortWrite>)) -> Seq<PortWrite> {
    (match pair.0 {
        Some(w) => seq![w],
        None => Seq::empty(),
    }) + (match pair.1 {
        Some(w) => seq![w],
        None => Seq::empty(),
    })
}

/// What sending the byte `byte` to the first `n` of the ports `devices`
/// writes: the byte goes to each port in turn.
pub open spec fn sent_byte(devices: Seq<Option<u16>>, byte: u8, n: int) -> Seq<PortWrite>
    decreases n,
{
    if n <= 0 {
        Seq::empty()
    } else {
        sent_byte(devices, byte, n - 1) + sent_to(devices[n - 1], byte)
    }
}

/// What sending the first `n` of the bytes `bytes` to the ports `devices`
/// writes.
pub open spec fn sent(devices: Seq<Option<u16>>, bytes: Seq<u8>, n: int) -> Seq<PortWrite>
    decreases n,
{
    if n <= 0 {
        Seq::empty()
    } else {
        sent(devices, bytes, n - 1) + sent_byte(devices, bytes[n - 1], devices.len() as int)
    }
}

/// Up to four 8250 serial ports, as found on IBM PC systems: COM1 to COM4.
/// The driver decides what is written to which I/O port; the writing itself,
/// and the wait for a port to be ready, are left to the caller.
#[derive(Clone, Copy, Debug)]
pub struct SerialPort {
    devices: [Option<u16>; PORTS],
}

impl SerialPort {
    /// The I/O address of each port, where the port is there.
    pub closed spec fn view(&self) -> Seq<Option<u16>> {
        self.devices@
    }

    /// The ports at the I/O addresses `addresses`, as the firmware reports
    /// them in its data area. An address of zero stands for a port that is not
    /// there.
    pub fn new(addresses: [u16; PORTS]) -> (r: SerialPort)
        ensures
            r@.len() == PORTS,
            forall|i: int|
                0 <= i < PORTS ==> #[trigger] r@[i] == if addresses@[i] == 0 {
                    None::<u16>
                } else {
                    Some(addresses@[i])
                },
    {
        let mut ret = SerialPort { devices: [None; PORTS] };
        let mut com_id: usize = 0;
        while com_id < PORTS
            invariant
                com_id <= PORTS,
                forall|i: int|
                    0 <= i < com_id ==> #[trigger] ret.devices@[i] == if addresses@[i] == 0 {
                        None::<u16>
                    } else {
                        Some(addresses@[i])
                    },
            decreases PORTS - com_id,
        {
            // The I/O address of the port, from the data area of the firmware.
            let port = addresses[com_id];
            // An address of zero says that the port is not there.
            if port == 0 {
                ret.devices[com_id] = None;
            } else {
                ret.devices[com_id] = Some(port);
            }
            com_id += 1;
        }
        ret
    }

    /// The writes that bring the port `port` into a known state, where it is
    /// there.
    pub fn setup(&self, port: usize) -> (r: Option<[PortWrite; 6]>)
        ensures
            match r {
                Some(writes) => port < PORTS && self@[port as int] is Some && writes@ == setup_of(
                    self@[port as int]->Some_0,
                ),
                None => port >= PORTS || self@[port as int] is None,
            },
    {
        if port >= PORTS {
            return None;
        }
        let address = self.devices[port]?;
        let writes = [
            PortWrite { port: address.wrapping_add(1), value: 0x00 },
            PortWrite { port: address.wrapping_add(3), value: 0x80 },
            PortWrite { port: address, value: 0x01 },
            PortWrite { port: address.wrapping_add(1), value: 0x00 },
            PortWrite { port: address.wrapping_add(3), value: 0x03 },
            PortWrite { port: address.wrapping_add(4), value: 0x0b },
        ];
        assert(writes@ =~= setup_of(address));
        Some(writes)
    }

    /// The writes that send the byte `byte` to the port `port`, where it is
    /// there: a carriage return first where the byte is a line feed, then the
    /// byte.
    pub fn write_byte(&mut self, port: usize, byte: u8) -> (r: (Option<PortWrite>, Option<PortWrite>))
        ensures
            final(self)@ == old(self)@,
            writes_of(r) == if port < PORTS {
                sent_to(old(self)@[port as int], byte)
            } else {
                Seq::<PortWrite>::empty()
            },
            r.0 is None ==> r.1 is None,
    {
        if port < PORTS {
            if let Some(address) = self.devices[port] {
                // Write a CR prior to all LFs.
                if byte == 0x0a {
                    return (
                        Some(PortWrite { port: address, value: 0x0d }),
                        Some(PortWrite { port: address, value: byte }),
                    );
                }
                return (Some(PortWrite { port: address, value: byte }), None);
            }
        }
        (None, None)
    }

    /// The writes that send `bytes` to all ports that are there, byte by
    /// byte.
    pub fn write(&mut self, bytes: &[u8]) -> (r: Vec<PortWrite>)
        ensures
            final(self)@ == old(self)@,
            r@ == sent(old(self)@, bytes@, bytes@.len() as int),
    {
        let mut writes: Vec<PortWrite> = Vec::new();
        let mut i: usize = 0;
        while i < bytes.len()
            invariant
                self@ == old(self)@,
                self@.len() == PORTS,
                i <= bytes@.len(),
                writes@ == sent(self@, bytes@, i as int),
            decreases bytes@.len() - i,
        {
            let byte = bytes[i];
            let ghost before = writes@;
            let mut com_id: usize = 0;
            while com_id < PORTS
                invariant
                    self@ == old(self)@,
                    self@.len() == PORTS,
                    com_id <= PORTS,
                    writes@ == before + sent_byte(self@, byte, com_id as int),
                decreases PORTS - com_id,
            {
                let (first, second) = self.write_byte(com_id, byte);
                if let Some(write) = first {
                    writes.push(write);
                }
                if let Some(write) = second {
                    writes.push(write);
                }
                assert(writes@ =~= before + sent_byte(self@, byte, com_id + 1));
                com_id += 1;
            }
            i += 1;
        }
        writes
    }
}

} // verus!
