//! Polling and appending as the layers above the log engine ask for them:
//! the partitions of a topic, the way a poll chooses its messages, and the
//! budget of bytes that the caches of the partitions share.

use crate::cache::evictions_to_free;
use crate::error::Error;
use crate::message::{
    message_views, Message, MessageView, RetainedMessage, SentView, MESSAGE_METADATA_SIZE,
    RECORD_HEADER_SIZE,
};
use crate::partition::append::{
    fits_batch, lemma_total_record_size_prefix, sent_views, total_record_size,
};
use crate::partition::messages::{at_or_after, last_of, slice_from};
use crate::partition::{same_owner, Partition, PollingConsumer};
use bytes::Bytes;
use vstd::prelude::*;

verus! {

/// From where a poll takes its messages.
#[derive(Debug, Clone, Copy, PartialEq, Eq, Structural)]
pub enum PollingKind {
    /// From the offset that the strategy names.
    Offset,
    /// From the timestamp that the strategy names.
    Timestamp,
    /// From the first message of the partition.
    First,
    /// The last messages of the partition.
    Last,
    /// From the message behind the offset that the consumer has stored.
    Next,
}

/// From where a poll takes its messages, with the offset or timestamp that
/// goes with it.
#[derive(Debug, Clone, Copy, PartialEq, Eq, Structural)]
pub struct PollingStrategy {
    pub kind: PollingKind,
    pub value: u64,
}

impl PollingStrategy {
    /// From the offset `value`.
    pub fn offset(value: u64) -> (strategy: PollingStrategy)
        ensures
            strategy == (PollingStrategy { kind: PollingKind::Offset, value }),
    {
        PollingStrategy { kind: PollingKind::Offset, value }
    }

    /// From the timestamp `value`.
    pub fn timestamp(value: u64) -> (strategy: PollingStrategy)
        ensures
            strategy == (PollingStrategy { kind: PollingKind::Timestamp, value }),
    {
        PollingStrategy { kind: PollingKind::Timestamp, value }
    }

    /// From the first message.
    pub fn first() -> (strategy: PollingStrategy)
        ensures
            strategy == (PollingStrategy { kind: PollingKind::First, value: 0 }),
    {
        PollingStrategy { kind: PollingKind::First, value: 0 }
    }

    /// The last messages.
    pub fn last() -> (strategy: PollingStrategy)
        ensures
            strategy == (PollingStrategy { kind: PollingKind::Last, value: 0 }),
    {
        PollingStrategy { kind: PollingKind::Last, value: 0 }
    }

    /// From the message behind the stored offset.
    pub fn next() -> (strategy: PollingStrategy)
        ensures
            strategy == (PollingStrategy { kind: PollingKind::Next, value: 0 }),
    {
        PollingStrategy { kind: PollingKind::Next, value: 0 }
    }
}

/// What a poll asks for: from where, how many messages at most, and whether
/// the offset of the last message polled is stored for the consumer.
#[derive(Debug, Clone, Copy)]
pub struct PollingArgs {
    pub strategy: PollingStrategy,
    pub count: u32,
    pub auto_commit: bool,
}

impl PollingArgs {
    /// Polling arguments with the given fields.
    pub fn new(strategy: PollingStrategy, count: u32, auto_commit: bool) -> (args: PollingArgs)
        ensures
            args.strategy == strategy,
            args.count == count,
            args.auto_commit == auto_commit,
    {
        Self { strategy, count, auto_commit }
    }
}

/// The messages that a poll got, with the partition they come from and the
/// offset of its newest message.
pub struct PolledMessages {
    pub partition_id: u32,
    pub current_offset: u64,
    pub messages: Vec<RetainedMessage>,
}

/// The messages that a poll of `count` messages by `consumer` with the
/// strategy `strategy` gets out of `partition`.
pub open spec fn polled(
    partition: Partition,
    consumer: PollingConsumer,
    strategy: PollingStrategy,
    count: u32,
) -> Seq<MessageView> {
    match strategy.kind {
        PollingKind::Offset => slice_from(
            partition.messages(),
            strategy.value as int,
            count as int,
        ),
        PollingKind::Timestamp => at_or_after(
            partition.fetched_by_timestamp(strategy.value, count),
            strategy.value,
            count as int,
        ),
        PollingKind::First => slice_from(partition.messages(), 0, count as int),
        PollingKind::Last => last_of(partition.messages(), count as int),
        PollingKind::Next => slice_from(
            partition.messages(),
            match partition.stored_offset(consumer) {
                Some(offset) => offset + 1,
                None => 0,
            },
            count as int,
        ),
    }
}

/// The messages that a poll of `count` messages by `consumer` with the
/// strategy `strategy` gets out of `partition`. A poll of no messages is
/// refused.
pub fn get_messages(
    partition: &Partition,
    consumer: PollingConsumer,
    strategy: PollingStrategy,
    count: u32,
) -> (read: Result<Vec<RetainedMessage>, Error>)
    requires
        partition.wf(),
    ensures
        match read {
            Ok(messages) => count > 0 && message_views(messages@) == polled(
                *partition,
                consumer,
                strategy,
                count,
            ),
            Err(e) => e == Error::InvalidMessagesCount && count == 0,
        },
{
    match strategy.kind {
        PollingKind::Offset => partition.get_messages_by_offset(strategy.value, count),
        PollingKind::Timestamp => partition.get_messages_by_timestamp(strategy.value, count),
        PollingKind::First => partition.get_first_messages(count),
        PollingKind::Last => partition.get_last_messages(count),
        PollingKind::Next => partition.get_next_messages(consumer, count),
    }
}

/// The message `after` is the message `before` with another payload.
pub open spec fn same_but_payload(after: MessageView, before: MessageView) -> bool {
    &&& after.id == before.id
    &&& after.offset == before.offset
    &&& after.timestamp == before.timestamp
    &&& after.checksum == before.checksum
    &&& after.state == before.state
    &&& after.headers == before.headers
}

/// The polled messages `messages` with their payloads decrypted by
/// `decrypt`, which gives nothing for a payload that it cannot decrypt. The
/// first such payload ends the work: no message is handed out then.
pub fn decrypt_messages<F: Fn(&Bytes) -> Option<Bytes>>(
    messages: &Vec<RetainedMessage>,
    decrypt: F,
) -> (decrypted: Result<Vec<RetainedMessage>, Error>)
    requires
        forall|payload: &Bytes| call_requires(decrypt, (payload,)),
    ensures
        match decrypted {
            Ok(plain) => {
                &&& plain.len() == messages.len()
                &&& forall|i: int|
                    0 <= i < plain.len() ==> same_but_payload(
                        (#[trigger] plain[i])@,
                        messages[i]@,
                    ) && call_ensures(decrypt, (&messages[i].payload,), Some(plain[i].payload))
            },
            Err(e) => e == Error::CannotDecryptData && exists|i: int|
                0 <= i < messages.len() && call_ensures(
                    decrypt,
                    (&#[trigger] messages[i].payload,),
                    None::<Bytes>,
                ),
        },
{
    let mut plain: Vec<RetainedMessage> = Vec::new();
    let mut i: usize = 0;
    while i < messages.len()
        invariant
            i <= messages.len(),
            plain.len() == i,
            forall|payload: &Bytes| call_requires(decrypt, (payload,)),
            forall|j: int|
                0 <= j < i ==> same_but_payload((#[trigger] plain[j])@, messages[j]@)
                    && call_ensures(decrypt, (&messages[j].payload,), Some(plain[j].payload)),
        decreases messages.len() - i,
    {
        let message = &messages[i];
        match decrypt(&message.payload) {
            Some(payload) => {
                let headers = match &message.headers {
                    Some(h) => Some(h.clone()),
                    None => None,
                };
                plain.push(
                    RetainedMessage {
                        id: message.id,
                        offset: message.offset,
                        timestamp: message.timestamp,
                        checksum: message.checksum,
                        message_state: message.message_state,
                        headers,
                        payload,
                    },
                );
            },
            None => {
                return Err(Error::CannotDecryptData);
            },
        }
        i = i + 1;
    }
    Ok(plain)
}

/// The messages `messages` with their payloads encrypted by `encrypt`,
/// which gives nothing for a payload that it cannot encrypt. The first such
/// payload ends the work: no message is handed out then.
pub fn encrypt_messages<F: Fn(&Bytes) -> Option<Bytes>>(
    messages: &Vec<Message>,
    encrypt: F,
) -> (encrypted: Result<Vec<Message>, Error>)
    requires
        forall|payload: &Bytes| call_requires(encrypt, (payload,)),
    ensures
        match encrypted {
            Ok(secret) => {
                &&& secret.len() == messages.len()
                &&& forall|i: int|
                    0 <= i < secret.len() ==> (#[trigger] secret[i])@.id == messages[i]@.id
                        && secret[i]@.headers == messages[i]@.headers && call_ensures(
                        encrypt,
                        (&messages[i].payload,),
                        Some(secret[i].payload),
                    )
            },
            Err(e) => e == Error::CannotEncryptData && exists|i: int|
                0 <= i < messages.len() && call_ensures(
                    encrypt,
                    (&#[trigger] messages[i].payload,),
                    None::<Bytes>,
                ),
        },
{
    let mut secret: Vec<Message> = Vec::new();
    let mut i: usize = 0;
    while i < messages.len()
        invariant
            i <= messages.len(),
            secret.len() == i,
            forall|payload: &Bytes| call_requires(encrypt, (payload,)),
            forall|j: int|
                0 <= j < i ==> (#[trigger] secret[j])@.id == messages[j]@.id && secret[j]@.headers
                    == messages[j]@.headers && call_ensures(
                    encrypt,
                    (&messages[j].payload,),
                    Some(secret[j].payload),
                ),
        decreases messages.len() - i,
    {
        let message = &messages[i];
        match encrypt(&message.payload) {
            Some(payload) => {
                let headers = match &message.headers {
                    Some(h) => Some(h.clone()),
                    None => None,
                };
                secret.push(Message::new(message.id, payload, headers));
            },
            None => {
                return Err(Error::CannotEncryptData);
            },
        }
        i = i + 1;
    }
    Ok(secret)
}

/// The partitions of one topic, with the budget of bytes that their caches
/// share and a count of the messages that were handed in.
pub struct System {
    stream_id: u32,
    topic_id: u32,
    partitions: Vec<Partition>,
    cache_limit: u64,
    messages_count: u64,
}

impl System {
    /// The partitions of the topic: the partition with the id `i + 1` stands
    /// at the place `i`.
    pub closed spec fn partitions(&self) -> Seq<Partition> {
        self.partitions@
    }

    /// The id of the stream.
    pub closed spec fn stream(&self) -> u32 {
        self.stream_id
    }

    /// The id of the topic.
    pub closed spec fn topic(&self) -> u32 {
        self.topic_id
    }

    /// The bytes that the caches of all partitions may take together.
    pub closed spec fn cache_budget(&self) -> u64 {
        self.cache_limit
    }

    /// The number of messages that were handed in for appending; it stops
    /// at `u64::MAX`.
    pub closed spec fn handed_in(&self) -> u64 {
        self.messages_count
    }

    /// Every partition is sound.
    pub open spec fn wf(&self) -> bool {
        forall|i: int| 0 <= i < self.partitions().len() ==> (#[trigger] self.partitions()[i]).wf()
    }

    /// A topic without partitions.
    pub fn new(stream_id: u32, topic_id: u32, cache_limit: u64) -> (system: System)
        ensures
            system.wf(),
            system.partitions().len() == 0,
            system.stream() == stream_id,
            system.topic() == topic_id,
            system.cache_budget() == cache_limit,
            system.handed_in() == 0,
    {
        System { stream_id, topic_id, partitions: Vec::new(), cache_limit, messages_count: 0 }
    }

    /// Adds `partition` behind the partitions that the topic has.
    pub fn add_partition(&mut self, partition: Partition)
        requires
            old(self).wf(),
            partition.wf(),
        ensures
            final(self).wf(),
            final(self).partitions() == old(self).partitions().push(partition),
            final(self).stream() == old(self).stream(),
            final(self).topic() == old(self).topic(),
            final(self).cache_budget() == old(self).cache_budget(),
            final(self).handed_in() == old(self).handed_in(),
    {
        self.partitions.push(partition);
        proof {
            assert forall|i: int| 0 <= i < self.partitions().len() implies (
            #[trigger] self.partitions()[i]).wf() by {
                if i < old(self).partitions().len() {
                    assert(old(self).partitions()[i].wf());
                }
            }
        }
    }

    /// The id of the stream.
    pub fn stream_id(&self) -> (id: u32)
        ensures
            id == self.stream(),
    {
        self.stream_id
    }

    /// The id of the topic.
    pub fn topic_id(&self) -> (id: u32)
        ensures
            id == self.topic(),
    {
        self.topic_id
    }

    /// Whether the topic has a partition.
    pub fn has_partitions(&self) -> (has: bool)
        ensures
            has == (self.partitions().len() > 0),
    {
        self.partitions.len() > 0
    }

    /// The number of partitions.
    pub fn get_partitions_count(&self) -> (count: usize)
        ensures
            count == self.partitions().len(),
    {
        self.partitions.len()
    }

    /// The partition with the id `partition_id`, if the topic has it.
    pub fn get_partition(&self, partition_id: u32) -> (partition: Option<&Partition>)
        ensures
            match partition {
                Some(found) => has_partition(self.partitions(), partition_id) && *found
                    == self.partitions()[partition_id - 1],
                None => !has_partition(self.partitions(), partition_id),
            },
    {
        if partition_id >= 1 && (partition_id - 1) as usize <= usize::MAX && ((partition_id
            - 1) as usize) < self.partitions.len() {
            Some(&self.partitions[(partition_id - 1) as usize])
        } else {
            None
        }
    }

    /// The number of messages that were handed in for appending.
    pub fn get_messages_count(&self) -> (count: u64)
        ensures
            count == self.handed_in(),
    {
        self.messages_count
    }

    /// The bytes that the caches of all partitions take together.
    pub fn get_cache_usage(&self) -> (used: u128)
        ensures
            used == cache_usage(self.partitions()),
    {
        let mut used: u128 = 0;
        let mut i: usize = 0;
        assert(self.partitions@.subrange(0, 0) =~= Seq::<Partition>::empty());
        while i < self.partitions.len()
            invariant
                i <= self.partitions.len(),
                used == cache_usage(self.partitions@.subrange(0, i as int)),
                used <= i * 0xffff_ffff_ffff_ffff,
            decreases self.partitions.len() - i,
        {
            proof {
                let upto = self.partitions@.subrange(0, i + 1);
                assert(upto.drop_last() =~= self.partitions@.subrange(0, i as int));
                assert(upto.last() == self.partitions@[i as int]);
            }
            used = used + self.partitions[i].get_cache_size() as u128;
            i = i + 1;
        }
        assert(self.partitions@.subrange(0, i as int) =~= self.partitions@);
        used
    }

    /// Whether `size_bytes` more bytes fit into the budget of the caches.
    pub fn will_fit_into_cache(&self, size_bytes: u64) -> (fits: bool)
        ensures
            fits == (cache_usage(self.partitions()) + size_bytes <= self.cache_budget()),
    {
        let used = self.get_cache_usage();
        size_bytes <= self.cache_limit && used <= (self.cache_limit - size_bytes) as u128
    }

    /// Frees `size_bytes` bytes in the caches: the partitions are gone
    /// through in their order, and each gives up its oldest batches until
    /// the bytes are free or its cache is empty. Gives the bytes freed; the
    /// number stops at `u64::MAX`.
    pub fn clean_cache(&mut self, size_bytes: u64) -> (freed: u64)
        requires
            old(self).wf(),
        ensures
            final(self).wf(),
            final(self).partitions().len() == old(self).partitions().len(),
            forall|i: int|
                0 <= i < final(self).partitions().len() ==> cleaned(
                    old(self).partitions()[i],
                    #[trigger] final(self).partitions()[i],
                    size_bytes - freed_upto(old(self).partitions(), i, size_bytes as int),
                ),
            freed == if freed_upto(
                old(self).partitions(),
                old(self).partitions().len() as int,
                size_bytes as int,
            ) > u64::MAX {
                u64::MAX as int
            } else {
                freed_upto(
                    old(self).partitions(),
                    old(self).partitions().len() as int,
                    size_bytes as int,
                )
            },
            freed >= size_bytes || forall|i: int|
                0 <= i < final(self).partitions().len() ==> (#[trigger] final(self).partitions()[
                    i]).cache_size() == 0,
            final(self).stream() == old(self).stream(),
            final(self).topic() == old(self).topic(),
            final(self).cache_budget() == old(self).cache_budget(),
            final(self).handed_in() == old(self).handed_in(),
    {
        let mut freed: u64 = 0;
        let n = self.partitions.len();
        let mut i: usize = 0;
        let ghost before = self.partitions@;
        proof {
            assert forall|j: int| 0 <= j < n implies (#[trigger] self.partitions@[j]).wf() by {
                assert(self.partitions()[j].wf());
            }
        }
        while i < n
            invariant
                n == self.partitions.len(),
                n == before.len(),
                i <= n,
                forall|j: int| 0 <= j < n ==> (#[trigger] self.partitions@[j]).wf(),
                forall|j: int| i <= j < n ==> #[trigger] self.partitions@[j] == before[j],
                forall|j: int|
                    0 <= j < i ==> cleaned(
                        before[j],
                        #[trigger] self.partitions@[j],
                        size_bytes - freed_upto(before, j, size_bytes as int),
                    ),
                0 <= freed_upto(before, i as int, size_bytes as int),
                freed == if freed_upto(before, i as int, size_bytes as int) > u64::MAX {
                    u64::MAX as int
                } else {
                    freed_upto(before, i as int, size_bytes as int)
                },
                freed >= size_bytes || forall|j: int|
                    0 <= j < i ==> (#[trigger] self.partitions@[j]).cache_size() == 0,
                self.stream_id == old(self).stream_id,
                self.topic_id == old(self).topic_id,
                self.cache_limit == old(self).cache_limit,
                self.messages_count == old(self).messages_count,
            decreases n - i,
        {
            let ghost current = self.partitions@;
            let mut partition = self.partitions.remove(i);
            let wanted = if freed >= size_bytes {
                0
            } else {
                size_bytes - freed
            };
            proof {
                assert(partition == before[i as int]);
                partition.lemma_gives_up(wanted as int, size_bytes - freed_upto(
                    before,
                    i as int,
                    size_bytes as int,
                ));
                partition.lemma_cache_size();
            }
            let gained = partition.clean_cache(wanted);
            freed = freed.saturating_add(gained);
            self.partitions.insert(i, partition);
            proof {
                assert forall|j: int| 0 <= j < n implies (#[trigger] self.partitions@[j]).wf() by {
                    if j != i {
                        assert(self.partitions@[j] == current[j]);
                    }
                }
                assert forall|j: int| i + 1 <= j < n implies #[trigger] self.partitions@[j]
                    == before[j] by {
                    assert(self.partitions@[j] == current[j]);
                }
                assert forall|j: int| 0 <= j < i + 1 implies cleaned(
                    before[j],
                    #[trigger] self.partitions@[j],
                    size_bytes - freed_upto(before, j, size_bytes as int),
                ) by {
                    if j != i {
                        assert(self.partitions@[j] == current[j]);
                    }
                }
                if freed < size_bytes {
                    assert forall|j: int| 0 <= j < i + 1 implies (
                    #[trigger] self.partitions@[j]).cache_size() == 0 by {
                        if j != i {
                            assert(self.partitions@[j] == current[j]);
                        }
                    }
                }
            }
            i = i + 1;
        }
        freed
    }

    /// What a poll by `consumer` with the arguments `args` makes of the
    /// topic `before`, and what it answers. A poll of no messages is
    /// refused; so is a poll on a topic without partitions, and one on a
    /// partition that the topic does not have. Else the answer holds the
    /// messages that the strategy chooses out of the partition, and where
    /// the poll commits and got a message, the offset of the last message
    /// is stored for the consumer. Nothing else changes.
    pub open spec fn follows_poll(
        &self,
        before: System,
        consumer: PollingConsumer,
        group_partition_id: u32,
        args: PollingArgs,
        answer: Result<PolledMessages, Error>,
    ) -> bool {
        let id = partition_of(consumer, group_partition_id);
        if args.count == 0 {
            answer matches Err(e) && e == Error::InvalidMessagesCount && self.partitions()
                == before.partitions()
        } else if before.partitions().len() == 0 {
            answer matches Err(e) && e == Error::NoPartitions(before.topic(), before.stream())
                && self.partitions() == before.partitions()
        } else if !has_partition(before.partitions(), id) {
            answer matches Err(e) && e == Error::PartitionNotFound(
                id,
                before.topic(),
                before.stream(),
            ) && self.partitions() == before.partitions()
        } else {
            let source = before.partitions()[id - 1];
            &&& answer matches Ok(got)
            &&& got.partition_id == id
            &&& got.current_offset == source.current()
            &&& message_views(got.messages@) == polled(source, consumer, args.strategy, args.count)
            &&& self.partitions().len() == before.partitions().len()
            &&& forall|j: int|
                0 <= j < self.partitions().len() && j != id - 1 ==> #[trigger] self.partitions()[j]
                    == before.partitions()[j]
            &&& if args.auto_commit && got.messages@.len() > 0 {
                &&& same_log(self.partitions()[id - 1], source)
                &&& self.partitions()[id - 1].stored_offset(consumer) == Some(
                    got.messages@.last().offset,
                )
                &&& forall|other: PollingConsumer|
                    !same_owner(other, consumer) ==> self.partitions()[id - 1].stored_offset(other)
                        == source.stored_offset(other)
            } else {
                self.partitions()[id - 1] == source
            }
        }
    }

    /// Polls messages for `consumer` as `args` says: out of the partition
    /// that a consumer on its own names, or out of the partition
    /// `group_partition_id` that its group has assigned to a member of a
    /// consumer group.
    pub fn poll_messages(
        &mut self,
        consumer: PollingConsumer,
        group_partition_id: u32,
        args: PollingArgs,
    ) -> (answer: Result<PolledMessages, Error>)
        requires
            old(self).wf(),
        ensures
            final(self).wf(),
            final(self).follows_poll(*old(self), consumer, group_partition_id, args, answer),
            final(self).stream() == old(self).stream(),
            final(self).topic() == old(self).topic(),
            final(self).cache_budget() == old(self).cache_budget(),
            final(self).handed_in() == old(self).handed_in(),
    {
        if args.count == 0 {
            return Err(Error::InvalidMessagesCount);
        }
        if !self.has_partitions() {
            return Err(Error::NoPartitions(self.topic_id, self.stream_id));
        }
        let partition_id = match consumer {
            PollingConsumer::Consumer(_, partition_id) => partition_id,
            PollingConsumer::ConsumerGroup(_, _) => group_partition_id,
        };
        let index: usize = match self.index_of(partition_id) {
            Some(index) => index,
            None => {
                return Err(Error::PartitionNotFound(partition_id, self.topic_id, self.stream_id));
            },
        };
        let ghost before = self.partitions@;
        assert(self.partitions()[index as int].wf());
        let partition = &self.partitions[index];
        let current_offset = partition.current_offset();
        let messages = match get_messages(partition, consumer, args.strategy, args.count) {
            Ok(messages) => messages,
            Err(e) => {
                return Err(e);
            },
        };
        if messages.len() == 0 {
            return Ok(PolledMessages { partition_id, current_offset, messages });
        }
        let offset = messages[messages.len() - 1].offset;
        if args.auto_commit {
            let mut partition = self.partitions.remove(index);
            partition.store_consumer_offset(consumer, offset);
            self.partitions.insert(index, partition);
            proof {
                assert forall|j: int| 0 <= j < self.partitions().len() implies (
                #[trigger] self.partitions()[j]).wf() by {
                    if j != index {
                        assert(self.partitions()[j] == before[j]);
                        assert(old(self).partitions()[j].wf());
                    }
                }
            }
        }
        Ok(PolledMessages { partition_id, current_offset, messages })
    }

    /// The place of the partition with the id `partition_id`, if the topic
    /// has it.
    fn index_of(&self, partition_id: u32) -> (index: Option<usize>)
        ensures
            match index {
                Some(index) => has_partition(self.partitions(), partition_id) && index
                    == partition_id - 1,
                None => !has_partition(self.partitions(), partition_id),
            },
    {
        if partition_id >= 1 && ((partition_id - 1) as usize) < self.partitions.len() {
            Some((partition_id - 1) as usize)
        } else {
            None
        }
    }

    /// What an append of the messages `sent` to the partition with the id
    /// `partition_id` makes of the topic `before`, and what it answers. An
    /// append to a topic without partitions is refused, and so is one to a
    /// partition that the topic does not have. Else the caches have made
    /// room where the messages did not fit into their budget, the partition
    /// has taken the messages as its own append says, for some readings of
    /// the clock, and the messages are counted as handed in.
    pub open spec fn follows_append(
        &self,
        before: System,
        partition_id: u32,
        sent: Seq<SentView>,
        answer: Result<(), Error>,
    ) -> bool {
        if before.partitions().len() == 0 {
            answer matches Err(e) && e == Error::NoPartitions(before.topic(), before.stream())
                && self.partitions() == before.partitions() && self.handed_in()
                == before.handed_in()
        } else if !has_partition(before.partitions(), partition_id) {
            answer matches Err(e) && e == Error::PartitionNotFound(
                partition_id,
                before.topic(),
                before.stream(),
            ) && self.partitions() == before.partitions() && self.handed_in()
                == before.handed_in()
        } else {
            &&& self.partitions().len() == before.partitions().len()
            &&& exists|made: Seq<Partition>, clock: Seq<u64>|
                {
                    &&& #[trigger] makes_room(before, made, announced_size(sent))
                    &&& clock.len() == sent.len()
                    &&& forall|j: int|
                        0 <= j < made.len() && j != partition_id - 1
                            ==> #[trigger] self.partitions()[j] == made[j]
                    &&& #[trigger] self.partitions()[partition_id - 1].follows_append(
                        made[partition_id - 1],
                        sent,
                        clock,
                        answer,
                    )
                }
            &&& self.handed_in() == if answer is Ok {
                if before.handed_in() + sent.len() > u64::MAX {
                    u64::MAX
                } else {
                    (before.handed_in() + sent.len()) as u64
                }
            } else {
                before.handed_in()
            }
        }
    }

    /// Whether `messages` may be appended to the partition with the id
    /// `partition_id`: their records fit into one batch, and 64 bits hold
    /// the offsets that they would get. A partition that the topic does not
    /// have is no hindrance: the append itself reports it.
    pub fn accepts(&self, partition_id: u32, messages: &Vec<Message>) -> (accepted: bool)
        requires
            self.wf(),
        ensures
            accepted == (total_record_size(sent_views(messages@)) <= u32::MAX && (has_partition(
                self.partitions(),
                partition_id,
            ) ==> self.partitions()[partition_id - 1].messages().len() + messages.len()
                <= u64::MAX)),
    {
        match self.index_of(partition_id) {
            Some(index) => {
                assert(self.partitions()[index as int].wf());
                self.partitions[index].accepts(messages)
            },
            None => fits_batch(messages),
        }
    }

    /// Appends `messages` to the partition with the id `partition_id`.
    /// Where the bytes of the messages do not fit into the budget of the
    /// caches, the caches give up as many bytes first.
    pub fn append_messages(&mut self, partition_id: u32, messages: &Vec<Message>) -> (answer:
        Result<(), Error>)
        requires
            old(self).wf(),
            total_record_size(sent_views(messages@)) <= u32::MAX,
            has_partition(old(self).partitions(), partition_id) ==> old(self).partitions()[
                partition_id - 1].messages().len() + messages.len() <= u64::MAX,
        ensures
            final(self).wf(),
            final(self).follows_append(*old(self), partition_id, sent_views(messages@), answer),
            final(self).stream() == old(self).stream(),
            final(self).topic() == old(self).topic(),
            final(self).cache_budget() == old(self).cache_budget(),
    {
        if !self.has_partitions() {
            return Err(Error::NoPartitions(self.topic_id, self.stream_id));
        }
        let index: usize = match self.index_of(partition_id) {
            Some(index) => index,
            None => {
                return Err(Error::PartitionNotFound(partition_id, self.topic_id, self.stream_id));
            },
        };
        let ghost sent = sent_views(messages@);
        let mut batch_size_bytes: u64 = 0;
        let mut i: usize = 0;
        assert(sent.subrange(0, 0) =~= Seq::<SentView>::empty());
        while i < messages.len()
            invariant
                i <= messages.len(),
                sent == sent_views(messages@),
                total_record_size(sent) <= u32::MAX,
                batch_size_bytes == announced_size(sent.subrange(0, i as int)),
                0 <= batch_size_bytes <= total_record_size(sent.subrange(0, i as int)),
            decreases messages.len() - i,
        {
            proof {
                assert(sent.subrange(0, i + 1).drop_last() =~= sent.subrange(0, i as int));
                assert(sent.subrange(0, i + 1).last() == messages[i as int]@);
                lemma_total_record_size_prefix(sent, i as int);
                lemma_total_record_size_prefix(sent, i + 1);
                assert(sent.subrange(0, i + 1).len() == i + 1);
                assert(sent.subrange(0, i as int).len() == i);
                assert(RECORD_HEADER_SIZE == 41 && MESSAGE_METADATA_SIZE == 20);
            }
            batch_size_bytes = batch_size_bytes + messages[i].get_size_bytes() as u64;
            i = i + 1;
        }
        assert(sent.subrange(0, i as int) =~= sent);
        let ghost before = self.partitions@;
        if !self.will_fit_into_cache(batch_size_bytes) {
            self.clean_cache(batch_size_bytes);
        }
        let ghost made = self.partitions@;
        proof {
            assert(makes_room(*old(self), made, announced_size(sent)));
        }
        assert(self.partitions()[index as int].wf());
        proof {
            if made != before {
                assert(cleaned(
                    before[index as int],
                    made[index as int],
                    batch_size_bytes - freed_upto(before, index as int, batch_size_bytes as int),
                ));
            }
        }
        let mut partition = self.partitions.remove(index);
        let answer = partition.append_messages(messages);
        let ghost taken = partition;
        let ghost clock = choose|clock: Seq<u64>|
            clock.len() == messages.len() && #[trigger] taken.follows_append(
                made[index as int],
                sent,
                clock,
                answer,
            );
        self.partitions.insert(index, partition);
        if answer.is_ok() {
            self.messages_count = self.messages_count.saturating_add(messages.len() as u64);
        }
        proof {
            assert forall|j: int| 0 <= j < self.partitions().len() implies (
            #[trigger] self.partitions()[j]).wf() by {
                if j != index {
                    assert(self.partitions()[j] == made[j]);
                    assert(made[j].wf());
                }
            }
            assert forall|j: int| 0 <= j < made.len() && j != partition_id - 1 implies (
            #[trigger] self.partitions()[j]) == made[j] by {}
            assert(sent.len() == messages.len());
            assert(self.partitions()[partition_id - 1] == taken);
            assert(taken.follows_append(made[partition_id - 1], sent, clock, answer));
        }
        answer
    }
}

/// The id of the partition that a poll by `consumer` reads: the one that a
/// consumer on its own names, or `group_partition_id`, the one that its
/// group has assigned to a member of a consumer group.
pub open spec fn partition_of(consumer: PollingConsumer, group_partition_id: u32) -> u32 {
    match consumer {
        PollingConsumer::Consumer(_, partition_id) => partition_id,
        PollingConsumer::ConsumerGroup(_, _) => group_partition_id,
    }
}

/// The partition `after` is the partition `before` but for the offsets that
/// consumers have stored.
pub open spec fn same_log(after: Partition, before: Partition) -> bool {
    &&& after.ids() == before.ids()
    &&& after.messages() == before.messages()
    &&& after.segments() == before.segments()
    &&& after.current() == before.current()
    &&& after.cached() == before.cached()
    &&& after.cache_budget() == before.cache_budget()
    &&& after.window() == before.window()
    &&& after.window_capacity() == before.window_capacity()
    &&& after.avg_delta() == before.avg_delta()
    &&& after.unsaved_count() == before.unsaved_count()
    &&& after.configuration() == before.configuration()
}

/// The bytes that the messages `sent` take in a request: for each its id,
/// the length of its payload in 32 bits, its payload and its headers. That
/// is 25 bytes less than its record takes.
pub open spec fn announced_size(sent: Seq<SentView>) -> int {
    total_record_size(sent) - 25 * sent.len()
}

/// The partitions `made` are those of the topic `before` after room was
/// made for `size` bytes in the caches: as they were where the bytes fit
/// into the budget, and else with each cache asked to free what the caches
/// before it have left to free.
pub open spec fn makes_room(before: System, made: Seq<Partition>, size: int) -> bool {
    &&& made.len() == before.partitions().len()
    &&& if cache_usage(before.partitions()) + size <= before.cache_budget() {
        made == before.partitions()
    } else {
        forall|j: int|
            0 <= j < made.len() ==> cleaned(
                before.partitions()[j],
                #[trigger] made[j],
                size - freed_upto(before.partitions(), j, size),
            )
    }
}

/// The partition `after` is the partition `before` after its cache was
/// asked to free `wanted` bytes.
pub open spec fn cleaned(before: Partition, after: Partition, wanted: int) -> bool {
    &&& same_but_cache(after, before)
    &&& after.cached() == match before.cached() {
        Some(cached) => Some(
            cached.subrange(evictions_to_free(cached, wanted) as int, cached.len() as int),
        ),
        None => None,
    }
}

/// The bytes that the caches of the first `i` of `partitions` give up
/// where `size` bytes are to be freed, each being asked for what the
/// partitions before it have left to free.
pub open spec fn freed_upto(partitions: Seq<Partition>, i: int, size: int) -> int
    decreases i,
{
    if i <= 0 {
        0
    } else {
        freed_upto(partitions, i - 1, size) + partitions[i - 1].gives_up(
            size - freed_upto(partitions, i - 1, size),
        )
    }
}

/// The partition `after` is the partition `before` but for what is in its
/// cache.
pub open spec fn same_but_cache(after: Partition, before: Partition) -> bool {
    &&& after.ids() == before.ids()
    &&& after.messages() == before.messages()
    &&& after.segments() == before.segments()
    &&& after.current() == before.current()
    &&& after.window() == before.window()
    &&& after.window_capacity() == before.window_capacity()
    &&& after.avg_delta() == before.avg_delta()
    &&& after.unsaved_count() == before.unsaved_count()
    &&& after.configuration() == before.configuration()
    &&& forall|consumer: PollingConsumer|
        after.stored_offset(consumer) == before.stored_offset(consumer)
    &&& 0 <= after.cache_size() <= before.cache_size()
    &&& after.cached() is Some == before.cached() is Some
    &&& after.cache_budget() == before.cache_budget()
}

/// Whether partitions with the ids from one on include the id
/// `partition_id`.
pub open spec fn has_partition(partitions: Seq<Partition>, partition_id: u32) -> bool {
    1 <= partition_id <= partitions.len()
}

/// The bytes that the caches of `partitions` take together.
pub open spec fn cache_usage(partitions: Seq<Partition>) -> int
    decreases partitions.len(),
{
    if partitions.len() == 0 {
        0
    } else {
        cache_usage(partitions.drop_last()) + partitions.last().cache_size()
    }
}

} // verus!
