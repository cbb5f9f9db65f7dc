//! The UART: which registers are written, and when to wait.
use vstd::prelude::*;
use crate::proc::Channel;

verus! {

// UART control registers are memory-mapped at its base address.
// http://byterunner.com/16550.html

/// Receive Holding Register (for input bytes)
pub const RHR: u64 = 0;

/// Transmit Holding Register (for output bytes)
pub const THR: u64 = 0;

/// Interrupt Enable Register
pub const IER: u64 = 1;

pub const IER_RX_ENABLE: u8 = 1;

pub const IER_TX_ENABLE: u8 = 2;

/// FIFO Control Register
pub const FCR: u64 = 2;

pub const FCR_FIFO_ENABLE: u8 = 1;

/// Clear the content of the two FIFOs
pub const FCR_FIFO_CLEAR: u8 = 6;

/// Interrupt Status Register
pub const ISR: u64 = 2;

/// Line Control Register
pub const LCR: u64 = 3;

pub const LCR_EIGHT_BITS: u8 = 3;

/// Special mode to set baud rate
pub const LCR_BAUD_LATCH: u8 = 0x80;

/// Line Status Register
pub const LSR: u64 = 5;

/// Input is waiting to be read from RHR
pub const LSR_RX_READY: u8 = 1;

/// THR can accept another character to send
pub const LSR_TX_IDLE: u8 = 0x20;

/// What writers to the UART sleep on
pub const UART_OUTPUT: usize = 1;

#[derive(Debug)]
pub struct Uart {
    pub base_address: u64,
    pub tx_busy: bool,
}

/// What comes next when bytes are sent.
#[derive(Debug, Clone, Copy, PartialEq, Eq, Structural)]
pub enum Transmit {
    /// Write the byte to the register.
    Send(u64, u8),
    /// Sleep until the UART is ready.
    Sleep(Channel),
    /// Every byte was sent, or sending is given up.
    Done,
}

impl Uart {
    pub fn new(base_address: u64) -> (r: Self)
        ensures
            r == (Uart { base_address, tx_busy: false }),
    {
        Uart { base_address, tx_busy: false }
    }

    /// The register writes, in order, that initialize the UART to 38.4K baud, 8 data bits, no
    /// parity, one stop bit.
    pub fn init(&self) -> (r: Vec<(u64, u8)>)
        ensures
            r@ == seq![
                (IER, 0u8),
                (LCR, LCR_BAUD_LATCH),
                (0u64, 3u8),
                (1u64, 0u8),
                (LCR, LCR_EIGHT_BITS),
                (FCR, FCR_FIFO_ENABLE | FCR_FIFO_CLEAR),
                (IER, IER_TX_ENABLE | IER_RX_ENABLE),
            ],
    {
        let mut writes: Vec<(u64, u8)> = Vec::new();
        // disable interrupts
        writes.push((IER, 0));
        // special mode to set baud rate
        writes.push((LCR, LCR_BAUD_LATCH));
        // LSB for baud rate of 38.4K
        writes.push((0, 3));
        // MSB for baud rate of 38.4K
        writes.push((1, 0));
        // leave set-baud mode
        writes.push((LCR, LCR_EIGHT_BITS));
        // reset and enable FIFOs
        writes.push((FCR, FCR_FIFO_ENABLE | FCR_FIFO_CLEAR));
        // enable transmit and receive interrupts
        writes.push((IER, IER_TX_ENABLE | IER_RX_ENABLE));
        writes
    }

    /// What comes next when `buf` is written and `sent` bytes of it have been sent. Nothing more
    /// is sent while the system panics.
    pub fn write(&mut self, buf: &[u8], sent: usize, panicking: bool) -> (r: Transmit)
        ensures
            r == (if sent >= buf@.len() || panicking {
                Transmit::Done
            } else if old(self).tx_busy {
                Transmit::Sleep(Channel::Buffer(UART_OUTPUT))
            } else {
                Transmit::Send(THR, buf@[sent as int])
            }),
            *final(self) == (Uart { tx_busy: old(self).tx_busy || r is Send, ..*old(self) }),
    {
        if sent >= buf.len() || panicking {
            return Transmit::Done;
        }
        if self.tx_busy {
            return Transmit::Sleep(Channel::Buffer(UART_OUTPUT));
        }
        self.tx_busy = true;
        Transmit::Send(THR, buf[sent])
    }

    /// Handles a UART interrupt, given the line status. Returns the channel to wake up if the UART
    /// has finished transmitting.
    pub fn handle_interrupt(&mut self, lsr: u8) -> (r: Option<Channel>)
        ensures
            r == (if lsr & LSR_TX_IDLE != 0 {
                Some(Channel::Buffer(UART_OUTPUT))
            } else {
                None
            }),
            *final(self) == (Uart { tx_busy: old(self).tx_busy && r is None, ..*old(self) }),
    {
        if lsr & LSR_TX_IDLE != 0 {
            self.tx_busy = false;
            Some(Channel::Buffer(UART_OUTPUT))
        } else {
            None
        }
    }
}

/// Whether a character can be read, by the line status.
pub fn getc(lsr: u8) -> (r: bool)
    ensures
        r == (lsr & LSR_RX_READY != 0),
{
    lsr & LSR_RX_READY != 0
}

/// Whether a character can be sent without waiting, by the line status.
pub fn write_sync(lsr: u8) -> (r: bool)
    ensures
        r == (lsr & LSR_TX_IDLE != 0),
{
    lsr & LSR_TX_IDLE != 0
}

} // verus!
