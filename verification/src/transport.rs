//! The mixnet transport abstraction: message-at-a-time send and receive
//! over an anonymizing network, with anonymous reply tokens.
//!
//! The trait is deliberately narrow: no acknowledgement and no built-in
//! retry; timeouts and retries belong to the callers. An in-process mock
//! implements it so the seeder, downloader and index provider can be
//! exercised without a network.

use vstd::prelude::*;
use crate::error::Error;

verus! {

/// An endpoint's address on the mixnet: an opaque string; equality is
/// string equality.
#[derive(Debug, Clone)]
pub struct NymAddress {
    addr: String,
}

impl View for NymAddress {
    type V = Seq<char>;

    closed spec fn view(&self) -> Seq<char> {
        self.addr@
    }
}

impl DeepView for NymAddress {
    type V = Seq<char>;

    open spec fn deep_view(&self) -> Seq<char> {
        self.view()
    }
}

impl NymAddress {
    /// Wrap an address string.
    pub fn new(address: &str) -> (r: NymAddress)
        ensures
            r@ == address@,
    {
        NymAddress { addr: address.to_owned() }
    }

    /// The address as a string slice.
    pub fn as_str(&self) -> (r: &str)
        ensures
            r@ == self@,
    {
        self.addr.as_str()
    }
}

/// The opaque token delivered with an incoming message that lets the
/// receiver reply without learning the sender's address.
#[derive(Debug, Clone)]
pub struct SenderTag {
    bytes: Vec<u8>,
}

impl View for SenderTag {
    type V = Seq<u8>;

    closed spec fn view(&self) -> Seq<u8> {
        self.bytes@
    }
}

impl DeepView for SenderTag {
    type V = Seq<u8>;

    open spec fn deep_view(&self) -> Seq<u8> {
        self.view()
    }
}

impl SenderTag {
    /// Wrap a reply token's bytes.
    pub fn new(bytes: Vec<u8>) -> (r: SenderTag)
        ensures
            r@ == bytes@,
    {
        SenderTag { bytes }
    }

    /// The token's bytes.
    pub fn as_bytes(&self) -> (r: &[u8])
        ensures
            r@ == self@,
    {
        self.bytes.as_slice()
    }

    /// Take the token's bytes.
    pub fn into_bytes(self) -> (r: Vec<u8>)
        ensures
            r@ == self@,
    {
        self.bytes
    }
}

/// A message delivered by the transport. Without a sender tag it cannot
/// be answered anonymously.
#[derive(Debug, Clone)]
pub struct ReceivedMessage {
    pub data: Vec<u8>,
    pub sender_tag: Option<SenderTag>,
}

pub ghost struct ReceivedMessageV {
    pub data: Seq<u8>,
    pub sender_tag: Option<Seq<u8>>,
}

impl View for ReceivedMessage {
    type V = ReceivedMessageV;

    open spec fn view(&self) -> ReceivedMessageV {
        ReceivedMessageV { data: self.data@, sender_tag: self.sender_tag.deep_view() }
    }
}

impl DeepView for ReceivedMessage {
    type V = ReceivedMessageV;

    open spec fn deep_view(&self) -> ReceivedMessageV {
        self.view()
    }
}

impl ReceivedMessage {
    /// Bundle a payload with its optional reply token.
    pub fn new(data: Vec<u8>, sender_tag: Option<SenderTag>) -> (r: ReceivedMessage)
        ensures
            r@.data == data@,
            r@.sender_tag == sender_tag.deep_view(),
    {
        ReceivedMessage { data, sender_tag }
    }
}

/// How a transport session is set up: an optional state directory for a
/// persistent identity, how many reply tokens each message carries, and
/// which network to join.
#[derive(Debug, Clone)]
pub struct TransportConfig {
    pub storage_path: Option<String>,
    pub surbs_per_message: u32,
    pub use_testnet: bool,
}

impl Default for TransportConfig {
    /// An ephemeral main-network session carrying five reply tokens per
    /// message.
    fn default() -> (r: TransportConfig)
        ensures
            r.storage_path is None,
            r.surbs_per_message == 5,
            !r.use_testnet,
    {
        TransportConfig { storage_path: Option::None, surbs_per_message: 5, use_testnet: false }
    }
}

/// Message-at-a-time transport over the mixnet.
///
/// Nothing is promised of the network: a send may fail, a receive may
/// time out, and messages arrive in any order. Callers own correlation
/// and retry.
pub trait Transport: Sized {
    /// Join the network.
    fn connect(&mut self) -> Result<(), Error>;

    /// Leave the network.
    fn disconnect(&mut self) -> Result<(), Error>;

    /// This session's own address, once connected.
    fn our_address(&self) -> Option<&NymAddress>;

    /// Whether the session is up.
    fn is_connected(&self) -> bool;

    /// Send a message to an address.
    fn send(&mut self, recipient: &NymAddress, data: Vec<u8>) -> Result<(), Error>;

    /// Answer anonymously through a reply token.
    fn send_reply(&mut self, sender_tag: &SenderTag, data: Vec<u8>) -> Result<(), Error>;

    /// Take the next message, if one is already there.
    fn receive(&mut self) -> Result<ReceivedMessage, Error>;

    /// Wait up to the given number of milliseconds for a message; none
    /// arriving in time is a normal outcome, not an error.
    fn receive_timeout(&mut self, timeout_ms: u64) -> Result<Option<ReceivedMessage>, Error>;
}

pub ghost struct MockTransportV {
    pub address: Option<Seq<char>>,
    pub connected: bool,
    pub incoming: Seq<ReceivedMessageV>,
    pub outgoing: Seq<(Seq<char>, Seq<u8>)>,
    pub replies: Seq<(Seq<u8>, Seq<u8>)>,
}

/// An in-process transport: a queue of messages to deliver, and records
/// of everything sent and replied. It stands in for the network in tests
/// and exercises exactly the trait the real transport offers.
#[derive(Debug)]
pub struct MockTransport {
    address: Option<NymAddress>,
    connected: bool,
    incoming: Vec<ReceivedMessage>,
    outgoing: Vec<(NymAddress, Vec<u8>)>,
    replies: Vec<(SenderTag, Vec<u8>)>,
}

impl View for MockTransport {
    type V = MockTransportV;

    closed spec fn view(&self) -> MockTransportV {
        MockTransportV {
            address: self.address.deep_view(),
            connected: self.connected,
            incoming: self.incoming.deep_view(),
            outgoing: self.outgoing.deep_view(),
            replies: self.replies.deep_view(),
        }
    }
}

impl MockTransport {
    /// A fresh, disconnected mock with nothing queued.
    pub fn new() -> (r: MockTransport)
        ensures
            r@.address is None,
            !r@.connected,
            r@.incoming == Seq::<ReceivedMessageV>::empty(),
            r@.outgoing == Seq::<(Seq<char>, Seq<u8>)>::empty(),
            r@.replies == Seq::<(Seq<u8>, Seq<u8>)>::empty(),
    {
        let r = MockTransport {
            address: Option::None,
            connected: false,
            incoming: Vec::new(),
            outgoing: Vec::new(),
            replies: Vec::new(),
        };
        proof {
            assert(r@.incoming =~= Seq::<ReceivedMessageV>::empty());
            assert(r@.outgoing =~= Seq::<(Seq<char>, Seq<u8>)>::empty());
            assert(r@.replies =~= Seq::<(Seq<u8>, Seq<u8>)>::empty());
        }
        r
    }

    /// Queue a message for the next receive.
    pub fn queue_message(&mut self, msg: ReceivedMessage)
        ensures
            final(self)@.incoming == old(self)@.incoming.push(msg@),
            final(self)@.address == old(self)@.address,
            final(self)@.connected == old(self)@.connected,
            final(self)@.outgoing == old(self)@.outgoing,
            final(self)@.replies == old(self)@.replies,
    {
        let ghost m = msg@;
        self.incoming.push(msg);
        proof {
            assert(self@.incoming =~~= old(self)@.incoming.push(m));
        }
    }

    /// Everything sent so far, as address and payload pairs.
    pub fn get_sent_messages(&self) -> (r: &Vec<(NymAddress, Vec<u8>)>)
        ensures
            r.deep_view() == self@.outgoing,
    {
        &self.outgoing
    }

    /// Every reply sent so far, as reply-token and payload pairs.
    pub fn get_sent_replies(&self) -> (r: &Vec<(SenderTag, Vec<u8>)>)
        ensures
            r.deep_view() == self@.replies,
    {
        &self.replies
    }
}

impl Transport for MockTransport {
    /// Connecting the mock always succeeds, assigns a fixed address, and
    /// touches nothing else.
    fn connect(&mut self) -> (r: Result<(), Error>)
        ensures
            r is Ok,
            final(self)@.connected,
            final(self)@.address is Some,
            final(self)@.incoming == old(self)@.incoming,
            final(self)@.outgoing == old(self)@.outgoing,
            final(self)@.replies == old(self)@.replies,
    {
        self.address = Option::Some(NymAddress::new("mock-address-12345.mock"));
        self.connected = true;
        Ok(())
    }

    /// Disconnecting always succeeds and only clears the connection flag.
    fn disconnect(&mut self) -> (r: Result<(), Error>)
        ensures
            r is Ok,
            !final(self)@.connected,
            final(self)@.address == old(self)@.address,
            final(self)@.incoming == old(self)@.incoming,
            final(self)@.outgoing == old(self)@.outgoing,
            final(self)@.replies == old(self)@.replies,
    {
        self.connected = false;
        Ok(())
    }

    fn our_address(&self) -> (r: Option<&NymAddress>)
        ensures
            r is Some <==> self@.address is Some,
            r matches Some(a) ==> a@ == self@.address->0,
    {
        self.address.as_ref()
    }

    fn is_connected(&self) -> (r: bool)
        ensures
            r == self@.connected,
    {
        self.connected
    }

    /// Sending while disconnected fails and changes nothing; otherwise
    /// the address and payload are appended to the outgoing record.
    fn send(&mut self, recipient: &NymAddress, data: Vec<u8>) -> (r: Result<(), Error>)
        ensures
            !old(self)@.connected ==> r is Err && final(self)@ == old(self)@,
            old(self)@.connected ==> r is Ok && final(self)@ == (MockTransportV {
                outgoing: old(self)@.outgoing.push((recipient@, data@)),
                ..old(self)@
            }),
    {
        if !self.connected {
            return Err(Error::SendFailed("not connected".to_owned()));
        }
        let addr = NymAddress::new(recipient.as_str());
        let ghost od = self@.outgoing;
        let ghost gd = data@;
        self.outgoing.push((addr, data));
        proof {
            assert(self@.outgoing.len() == od.len() + 1);
            assert forall|k: int| 0 <= k < self@.outgoing.len()
                implies #[trigger] self@.outgoing[k] == od.push((recipient@, gd))[k] by {
                if k < od.len() {
                    assert(self@.outgoing[k] == self.outgoing@[k].deep_view());
                } else {
                    assert(self@.outgoing[k] == self.outgoing@[k].deep_view());
                    assert(self.outgoing@[k].0.deep_view() == recipient@);
                    assert(self.outgoing@[k].1.deep_view() =~= gd);
                }
            }
            assert(self@.outgoing =~= od.push((recipient@, gd)));
        }
        Ok(())
    }

    /// Replying while disconnected fails and changes nothing; otherwise
    /// the token and payload are appended to the reply record.
    fn send_reply(&mut self, sender_tag: &SenderTag, data: Vec<u8>) -> (r: Result<(), Error>)
        ensures
            !old(self)@.connected ==> r is Err && final(self)@ == old(self)@,
            old(self)@.connected ==> r is Ok && final(self)@ == (MockTransportV {
                replies: old(self)@.replies.push((sender_tag@, data@)),
                ..old(self)@
            }),
    {
        if !self.connected {
            return Err(Error::SendFailed("not connected".to_owned()));
        }
        let mut tag_bytes: Vec<u8> = Vec::new();
        tag_bytes.extend_from_slice(sender_tag.as_bytes());
        let tag = SenderTag::new(tag_bytes);
        let ghost or = self@.replies;
        let ghost gd = data@;
        self.replies.push((tag, data));
        proof {
            assert(self@.replies.len() == or.len() + 1);
            assert forall|k: int| 0 <= k < self@.replies.len()
                implies #[trigger] self@.replies[k] == or.push((sender_tag@, gd))[k] by {
                if k < or.len() {
                    assert(self@.replies[k] == self.replies@[k].deep_view());
                } else {
                    assert(self@.replies[k] == self.replies@[k].deep_view());
                    assert(self.replies@[k].0.deep_view() =~= sender_tag@);
                    assert(self.replies@[k].1.deep_view() =~= gd);
                }
            }
            assert(self@.replies =~= or.push((sender_tag@, gd)));
        }
        Ok(())
    }

    /// The mock hands over the first queued message in queue order, and
    /// reports a receive failure where nothing is queued: it cannot wait.
    fn receive(&mut self) -> (r: Result<ReceivedMessage, Error>)
        ensures
            old(self)@.incoming.len() == 0 ==> r is Err && final(self)@ == old(self)@,
            old(self)@.incoming.len() > 0 ==> ({
                &&& r matches Ok(m) && m@ == old(self)@.incoming[0]
                &&& final(self)@ == (MockTransportV {
                    incoming: old(self)@.incoming.drop_first(),
                    ..old(self)@
                })
            }),
    {
        if self.incoming.len() == 0 {
            return Err(Error::ReceiveFailed("nothing queued".to_owned()));
        }
        let ghost oi = self@.incoming;
        let m = self.incoming.remove(0);
        proof {
            lemma_pop_front(self.incoming@, oi);
        }
        Ok(m)
    }

    /// The first queued message in queue order, or none: an empty queue
    /// is the mock's timeout.
    fn receive_timeout(&mut self, timeout_ms: u64) -> (r: Result<Option<ReceivedMessage>, Error>)
        ensures
            r is Ok,
            old(self)@.incoming.len() == 0 ==> r == Ok::<Option<ReceivedMessage>, Error>(
                Option::None,
            ) && final(self)@ == old(self)@,
            old(self)@.incoming.len() > 0 ==> ({
                &&& r matches Ok(o) && o matches Some(m) && m@ == old(self)@.incoming[0]
                &&& final(self)@ == (MockTransportV {
                    incoming: old(self)@.incoming.drop_first(),
                    ..old(self)@
                })
            }),
    {
        if self.incoming.len() == 0 {
            return Ok(Option::None);
        }
        let ghost oi = self@.incoming;
        let m = self.incoming.remove(0);
        proof {
            lemma_pop_front(self.incoming@, oi);
        }
        Ok(Option::Some(m))
    }
}

/// Removing the front of the queue leaves exactly the rest, in order.
proof fn lemma_pop_front(rest: Seq<ReceivedMessage>, before: Seq<ReceivedMessageV>)
    requires
        before.len() > 0,
        rest.len() == before.len() - 1,
        forall|k: int| 0 <= k < rest.len() ==> (#[trigger] rest[k]).deep_view() == before[k + 1],
    ensures
        Seq::new(rest.len() as nat, |k: int| rest[k].deep_view()) =~= before.drop_first(),
{
}

} // verus!
