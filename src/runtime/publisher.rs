//! Publish requests and the buffered outbox that collects them during module
//! callbacks.

use vstd::prelude::*;
use vstd::string::StringSliceAdditionalSpecFns;
use vstd::utf8::encode_utf8;

use super::traits::PublishOutbox;
use crate::packet::QoS;

verus! {

/// A request to publish, borrowing its topic and payload.
#[derive(Debug, Clone, Copy)]
pub struct PublishRequest<'a> {
    pub topic: &'a str,
    pub payload: &'a [u8],
    pub qos: QoS,
}

/// A request to publish that owns copies of its topic and payload, so that it
/// outlives the callback that made it. Those a `BufferedOutbox` hands out
/// have a topic of at most `TOPIC_SIZE` bytes and a payload of at most
/// `PAYLOAD_SIZE` (see `BufferedOutbox::all_fit`).
#[derive(Debug)]
pub struct OwnedPublishRequest<const TOPIC_SIZE: usize, const PAYLOAD_SIZE: usize> {
    pub topic: String,
    pub payload: Vec<u8>,
    pub qos: QoS,
}

/// What a publish request holds.
pub ghost struct RequestView {
    pub topic: Seq<char>,
    pub payload: Seq<u8>,
    pub qos: QoS,
}

impl<const TOPIC_SIZE: usize, const PAYLOAD_SIZE: usize> View for OwnedPublishRequest<
    TOPIC_SIZE,
    PAYLOAD_SIZE,
> {
    type V = RequestView;

    open spec fn view(&self) -> RequestView {
        RequestView { topic: self.topic@, payload: self.payload@, qos: self.qos }
    }
}

/// The views of a sequence of owned requests.
pub open spec fn requests_view<const TOPIC_SIZE: usize, const PAYLOAD_SIZE: usize>(
    rs: Seq<OwnedPublishRequest<TOPIC_SIZE, PAYLOAD_SIZE>>,
) -> Seq<RequestView> {
    rs.map_values(|r: OwnedPublishRequest<TOPIC_SIZE, PAYLOAD_SIZE>| r@)
}

/// Collects the publish requests that modules make during a callback, in
/// order, up to `CAPACITY` of them. A request that does not fit, because the
/// outbox is full or its topic or payload is too long, is dropped without a
/// word to the module: callbacks cannot wait.
pub struct BufferedOutbox<const CAPACITY: usize, const TOPIC_SIZE: usize, const PAYLOAD_SIZE: usize> {
    requests: Vec<OwnedPublishRequest<TOPIC_SIZE, PAYLOAD_SIZE>>,
    requested: Ghost<Seq<RequestView>>,
}

impl<
    const CAPACITY: usize,
    const TOPIC_SIZE: usize,
    const PAYLOAD_SIZE: usize,
> View for BufferedOutbox<CAPACITY, TOPIC_SIZE, PAYLOAD_SIZE> {
    type V = Seq<RequestView>;

    closed spec fn view(&self) -> Seq<RequestView> {
        requests_view(self.requests@)
    }
}

impl<
    const CAPACITY: usize,
    const TOPIC_SIZE: usize,
    const PAYLOAD_SIZE: usize,
> BufferedOutbox<CAPACITY, TOPIC_SIZE, PAYLOAD_SIZE> {
    /// Every request fits the outbox: its topic holds at most `TOPIC_SIZE`
    /// bytes of UTF-8 and its payload at most `PAYLOAD_SIZE` bytes.
    pub open spec fn all_fit(reqs: Seq<RequestView>) -> bool {
        forall|i: int|
            0 <= i < reqs.len() ==> encode_utf8((#[trigger] reqs[i]).topic).len() <= TOPIC_SIZE
                && reqs[i].payload.len() <= PAYLOAD_SIZE
    }

    /// An empty outbox.
    pub fn new() -> (r: Self)
        ensures
            r@ == Seq::<RequestView>::empty(),
            Self::all_fit(r@),
            r.requested() == Seq::<RequestView>::empty(),
    {
        let r = BufferedOutbox { requests: Vec::new(), requested: Ghost(Seq::empty()) };
        assert(r@ =~= Seq::<RequestView>::empty());
        r
    }

    /// Queues a copy of the request at the end, where the outbox has room and
    /// the topic and payload fit; otherwise leaves the outbox as it was.
    /// Returns whether the request was queued.
    pub fn try_publish(&mut self, topic: &str, payload: &[u8], qos: QoS) -> (r: bool)
        ensures
            r == (old(self)@.len() < CAPACITY && topic.spec_bytes().len() <= TOPIC_SIZE
                && payload@.len() <= PAYLOAD_SIZE),
            r ==> final(self)@ == old(self)@.push(
                RequestView { topic: topic@, payload: payload@, qos },
            ),
            !r ==> final(self)@ == old(self)@,
            Self::all_fit(old(self)@) ==> Self::all_fit(final(self)@),
            final(self).requested() == old(self).requested().push(
                RequestView { topic: topic@, payload: payload@, qos },
            ),
    {
        self.requested = Ghost(self.requested@.push(RequestView { topic: topic@, payload: payload@, qos }));
        if topic.as_bytes().len() > TOPIC_SIZE {
            return false;
        }
        if payload.len() > PAYLOAD_SIZE {
            return false;
        }
        if self.requests.len() >= CAPACITY {
            return false;
        }
        let req = OwnedPublishRequest::<TOPIC_SIZE, PAYLOAD_SIZE> {
            topic: topic.to_owned(),
            payload: vstd::slice::slice_to_vec(payload),
            qos,
        };
        let ghost before = self.requests@;
        self.requests.push(req);
        assert(self@ =~= requests_view(before).push(req@));
        assert(topic.spec_bytes() == encode_utf8(topic@));
        true
    }

    /// Takes every queued request out, in the order they were queued, and
    /// leaves the outbox empty.
    pub fn drain(&mut self) -> (r: Vec<OwnedPublishRequest<TOPIC_SIZE, PAYLOAD_SIZE>>)
        ensures
            requests_view(r@) == old(self)@,
            final(self)@ == Seq::<RequestView>::empty(),
            Self::all_fit(old(self)@) ==> Self::all_fit(requests_view(r@)),
            final(self).requested() == old(self).requested(),
    {
        let mut out: Vec<OwnedPublishRequest<TOPIC_SIZE, PAYLOAD_SIZE>> = Vec::new();
        core::mem::swap(&mut self.requests, &mut out);
        assert(self@ =~= Seq::<RequestView>::empty());
        out
    }

    /// Drops every queued request.
    pub fn clear(&mut self)
        ensures
            final(self)@ == Seq::<RequestView>::empty(),
            Self::all_fit(final(self)@),
            final(self).requested() == old(self).requested(),
    {
        self.requests.clear();
        assert(self@ =~= Seq::<RequestView>::empty());
    }

    /// Whether no request is queued.
    pub fn is_empty(&self) -> (r: bool)
        ensures
            r == (self@.len() == 0),
    {
        self.requests.len() == 0
    }

    /// The number of queued requests.
    pub fn len(&self) -> (r: usize)
        ensures
            r == self@.len(),
    {
        self.requests.len()
    }
}

impl<
    const CAPACITY: usize,
    const TOPIC_SIZE: usize,
    const PAYLOAD_SIZE: usize,
> Default for BufferedOutbox<CAPACITY, TOPIC_SIZE, PAYLOAD_SIZE> {
    fn default() -> (r: Self)
        ensures
            r@ == Seq::<RequestView>::empty(),
            Self::all_fit(r@),
            r.requested() == Seq::<RequestView>::empty(),
    {
        Self::new()
    }
}

impl<
    const CAPACITY: usize,
    const TOPIC_SIZE: usize,
    const PAYLOAD_SIZE: usize,
> PublishOutbox for BufferedOutbox<CAPACITY, TOPIC_SIZE, PAYLOAD_SIZE> {
    closed spec fn requested(&self) -> Seq<RequestView> {
        self.requested@
    }

    fn publish(&mut self, topic: &str, payload: &[u8], qos: QoS)
        ensures
            old(self)@.len() < CAPACITY && topic.spec_bytes().len() <= TOPIC_SIZE
                && payload@.len() <= PAYLOAD_SIZE ==> final(self)@ == old(self)@.push(
                RequestView { topic: topic@, payload: payload@, qos },
            ),
            !(old(self)@.len() < CAPACITY && topic.spec_bytes().len() <= TOPIC_SIZE
                && payload@.len() <= PAYLOAD_SIZE) ==> final(self)@ == old(self)@,
            Self::all_fit(old(self)@) ==> Self::all_fit(final(self)@),
    {
        let _ = self.try_publish(topic, payload, qos);
    }
}

} // verus!
