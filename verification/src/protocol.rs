//! Messages of the binary protocol, their checksum and their wire format.

use vstd::prelude::*;

verus! {

/// Start sequence that denotes the beginning of a message.
pub const START_SEQUENCE: [u8; 2] = [0xFF, 0x00];

/// Escape byte: when followed by 0xFF, represents a literal 0xFF in the message stream.
pub const ESCAPE: u8 = 0xFF;

/// The sum of a sequence of bytes, as a natural number.
pub open spec fn byte_sum(s: Seq<u8>) -> nat
    decreases s.len(),
{
    if s.len() == 0 {
        0
    } else {
        byte_sum(s.drop_last()) + s.last() as nat
    }
}

/// The checksum of a message: the sum of address, destination, length and data bytes, modulo 256.
pub open spec fn checksum_of(address: u8, destination: u8, data_length: u8, data: Seq<u8>) -> u8 {
    ((address + destination + data_length + byte_sum(data)) % 256) as u8
}

/// Every data byte counts in the checksum: with no data the checksum is the sum of the
/// header bytes modulo 256, and one more data byte adds its value, modulo 256.
pub proof fn law_checksum_counts_every_byte(address: u8, destination: u8, data_length: u8, data: Seq<u8>, b: u8)
    ensures
        checksum_of(address, destination, data_length, Seq::empty()) == (address + destination + data_length) % 256,
        checksum_of(address, destination, data_length, data.push(b))
            == (checksum_of(address, destination, data_length, data) + b) % 256,
{
    let h = address + destination + data_length;
    assert(data.push(b).drop_last() =~= data);
    assert(byte_sum(data.push(b)) == byte_sum(data) + b);
    vstd::arithmetic::div_mod::lemma_add_mod_noop(h + byte_sum(data), b as int, 256);
    vstd::arithmetic::div_mod::lemma_small_mod(b as nat, 256);
}

/// Adding a byte with wrap-around to a running sum kept modulo 256.
proof fn lemma_wrapping_add_mod(acc: u8, b: u8, total: int)
    requires
        acc == total % 256,
    ensures
        vstd::wrapping::u8_specs::wrapping_add(acc, b) == (total + b) % 256,
{
    vstd::arithmetic::div_mod::lemma_add_mod_noop(total, b as int, 256);
    vstd::arithmetic::div_mod::lemma_small_mod(b as nat, 256);
    vstd::arithmetic::div_mod::lemma_small_mod(acc as nat, 256);
    if acc + b >= 256 {
        vstd::arithmetic::div_mod::lemma_mod_sub_multiples_vanish(acc + b, 256);
        vstd::arithmetic::div_mod::lemma_small_mod((acc + b - 256) as nat, 256);
    } else {
        vstd::arithmetic::div_mod::lemma_small_mod((acc + b) as nat, 256);
    }
}

/// Compute the checksum for address, destination, data_length, and data.
pub fn compute_checksum(address: u8, destination: u8, data_length: u8, data: &[u8]) -> (sum: u8)
    ensures
        sum == checksum_of(address, destination, data_length, data@),
{
    let mut data_sum: u8 = 0;
    let mut i: usize = 0;
    while i < data.len()
        invariant
            i <= data.len(),
            data_sum == byte_sum(data@.take(i as int)) % 256,
        decreases data.len() - i,
    {
        proof {
            assert(data@.take(i + 1).drop_last() =~= data@.take(i as int));
            lemma_wrapping_add_mod(data_sum, data[i as int], byte_sum(data@.take(i as int)) as int);
        }
        data_sum = data_sum.wrapping_add(data[i]);
        i = i + 1;
    }
    proof {
        assert(data@.take(data.len() as int) =~= data@);
        vstd::arithmetic::div_mod::lemma_small_mod(address as nat, 256);
        lemma_wrapping_add_mod(address, destination, address as int);
        lemma_wrapping_add_mod(
            vstd::wrapping::u8_specs::wrapping_add(address, destination),
            data_length,
            address + destination,
        );
        let partial = vstd::wrapping::u8_specs::wrapping_add(
            vstd::wrapping::u8_specs::wrapping_add(address, destination),
            data_length,
        );
        // fold the data sum in: (h + (s % 256)) % 256 == (h + s) % 256
        vstd::arithmetic::div_mod::lemma_add_mod_noop(
            address + destination + data_length,
            byte_sum(data@) as int,
            256,
        );
        lemma_wrapping_add_mod(partial, data_sum, address + destination + data_length);
        vstd::arithmetic::div_mod::lemma_add_mod_noop(
            address + destination + data_length,
            data_sum as int,
            256,
        );
        vstd::arithmetic::div_mod::lemma_small_mod(data_sum as nat, 256);
    }
    address.wrapping_add(destination).wrapping_add(data_length).wrapping_add(data_sum)
}

/// The mathematical content of a [`Message`].
pub struct MessageModel {
    pub address: u8,
    pub destination: u8,
    pub data_length: u8,
    pub data: Seq<u8>,
    pub checksum: u8,
}

impl MessageModel {
    /// A message is well formed when its length byte counts its data and its checksum matches.
    pub open spec fn wf(self) -> bool {
        &&& self.data.len() == self.data_length
        &&& self.checksum == checksum_of(self.address, self.destination, self.data_length, self.data)
    }

    /// The logical bytes of a message, in wire order, before escaping.
    pub open spec fn fields(self) -> Seq<u8> {
        seq![self.address, self.destination, self.data_length] + self.data + seq![self.checksum]
    }
}

/// The escaped form of one logical byte: 0xFF is doubled, every other byte stands for itself.
pub open spec fn escaped(b: u8) -> Seq<u8> {
    if b == 0xFF {
        seq![0xFFu8, 0xFFu8]
    } else {
        seq![b]
    }
}

/// The escaped form of a sequence of logical bytes.
pub open spec fn escape_all(s: Seq<u8>) -> Seq<u8>
    decreases s.len(),
{
    if s.len() == 0 {
        Seq::empty()
    } else {
        escape_all(s.drop_last()) + escaped(s.last())
    }
}

/// The wire format of a message: the start sequence, then every logical byte escaped.
pub open spec fn encode(m: MessageModel) -> Seq<u8> {
    seq![0xFFu8, 0x00u8] + escape_all(m.fields())
}

/// A message in the binary protocol.
#[derive(Clone, Debug, Eq, PartialEq)]
pub struct Message {
    pub address: u8,
    pub destination: u8,
    pub data_length: u8,
    pub data: Vec<u8>,
    pub checksum: u8,
}

impl View for Message {
    type V = MessageModel;

    open spec fn view(&self) -> MessageModel {
        MessageModel {
            address: self.address,
            destination: self.destination,
            data_length: self.data_length,
            data: self.data@,
            checksum: self.checksum,
        }
    }
}

#[verifier::external_type_specification]
#[verifier::external_body]
pub struct ExIoError(std::io::Error);

fn emit_escaped_byte(b: u8, out: &mut Vec<u8>)
    ensures
        final(out)@ == old(out)@ + escaped(b),
{
    if b == ESCAPE {
        out.push(ESCAPE);
        out.push(ESCAPE);
    } else {
        out.push(b);
    }
    proof {
        assert(final(out)@ =~= old(out)@ + escaped(b));
    }
}

impl Message {
    /// Create a new builder for constructing a Message.
    pub fn builder() -> (b: MessageBuilder)
        ensures
            b@ == (BuilderModel { address: None, destination: None, data: None }),
    {
        MessageBuilder::default()
    }

    /// Serialize this message to its binary wire format into a new Vec<u8>.
    /// Emits start sequence [0xFF, 0x00], then each logical byte (address, destination,
    /// data_length, data, checksum) with 0xFF escaped as [0xFF, 0xFF].
    pub fn to_bytes(&self) -> (bytes: Vec<u8>)
        ensures
            bytes@ == encode(self@),
    {
        let mut out = Vec::new();
        let _ = self.write_bytes(&mut out);
        proof {
            assert(out@ =~= encode(self@));
        }
        out
    }

    /// Serialize this message to its binary wire format, appending it to `out`.
    /// Emits start sequence [0xFF, 0x00], then each logical byte (address, destination,
    /// data_length, data, checksum) with 0xFF escaped as [0xFF, 0xFF].
    /// Appending to a vector cannot fail, so the result is always `Ok`.
    pub fn write_bytes(&self, out: &mut Vec<u8>) -> (r: std::io::Result<()>)
        ensures
            r is Ok,
            final(out)@ == old(out)@ + encode(self@),
    {
        let ghost start = out@;
        let ghost head = seq![self.address, self.destination, self.data_length];
        out.push(START_SEQUENCE[0]);
        out.push(START_SEQUENCE[1]);
        emit_escaped_byte(self.address, out);
        emit_escaped_byte(self.destination, out);
        emit_escaped_byte(self.data_length, out);
        proof {
            lemma_escape_all_push(seq![self.address], self.destination);
            lemma_escape_all_push(seq![self.address, self.destination], self.data_length);
            lemma_escape_all_push(Seq::empty(), self.address);
            assert(seq![self.address] =~= Seq::<u8>::empty().push(self.address));
            assert(seq![self.address, self.destination] =~= seq![self.address].push(self.destination));
            assert(head =~= seq![self.address, self.destination].push(self.data_length));
            assert(out@ =~= start + seq![0xFFu8, 0x00u8] + escape_all(head + self.data@.take(0)));
        }
        let mut i: usize = 0;
        while i < self.data.len()
            invariant
                i <= self.data.len(),
                head == seq![self.address, self.destination, self.data_length],
                out@ == start + seq![0xFFu8, 0x00u8] + escape_all(head + self.data@.take(i as int)),
            decreases self.data.len() - i,
        {
            let b = self.data[i];
            emit_escaped_byte(b, out);
            proof {
                lemma_escape_all_push(head + self.data@.take(i as int), b);
                assert(head + self.data@.take(i + 1) =~= (head + self.data@.take(i as int)).push(b));
            }
            i = i + 1;
        }
        emit_escaped_byte(self.checksum, out);
        proof {
            assert(self.data@.take(self.data.len() as int) =~= self.data@);
            lemma_escape_all_push(head + self.data@, self.checksum);
            assert(self@.fields() =~= (head + self.data@).push(self.checksum));
            assert(out@ =~= start + encode(self@));
        }
        Ok(())
    }
}

/// Escaping a sequence with one more byte appends that byte's escaped form.
pub proof fn lemma_escape_all_push(s: Seq<u8>, b: u8)
    ensures
        escape_all(s.push(b)) == escape_all(s) + escaped(b),
{
    assert(s.push(b).drop_last() =~= s);
}

/// The fields set so far on a [`MessageBuilder`].
pub struct BuilderModel {
    pub address: Option<u8>,
    pub destination: Option<u8>,
    pub data: Option<Seq<u8>>,
}

/// Builder for [`Message`]: set the address, destination and data, then call `build`,
/// which computes the data length and the checksum.
#[derive(Clone, Debug)]
pub struct MessageBuilder {
    address: Option<u8>,
    destination: Option<u8>,
    data: Option<Vec<u8>>,
}

impl View for MessageBuilder {
    type V = BuilderModel;

    closed spec fn view(&self) -> BuilderModel {
        BuilderModel {
            address: self.address,
            destination: self.destination,
            data: match self.data {
                Some(d) => Some(d@),
                None => None,
            },
        }
    }
}

impl Default for MessageBuilder {
    fn default() -> (b: Self)
        ensures
            b@ == (BuilderModel { address: None, destination: None, data: None }),
    {
        MessageBuilder { address: None, destination: None, data: None }
    }
}

/// Error returned by [`MessageBuilder::build`].
#[derive(Clone, Debug, PartialEq, Eq)]
#[non_exhaustive]
pub enum MessageBuilderError {
    /// A required field was not set; the field's name is given.
    UninitializedField(&'static str),
    /// The fields were set but do not make a valid message.
    ValidationError(String),
}

impl MessageBuilder {
    pub fn address(self, value: u8) -> (b: Self)
        ensures
            b@ == (BuilderModel { address: Some(value), ..self@ }),
    {
        MessageBuilder { address: Some(value), ..self }
    }

    pub fn destination(self, value: u8) -> (b: Self)
        ensures
            b@ == (BuilderModel { destination: Some(value), ..self@ }),
    {
        MessageBuilder { destination: Some(value), ..self }
    }

    pub fn data(self, value: Vec<u8>) -> (b: Self)
        ensures
            b@ == (BuilderModel { data: Some(value@), ..self@ }),
    {
        MessageBuilder { data: Some(value), ..self }
    }

    /// Build the Message, computing the data_length and checksum from the other fields.
    pub fn build(self) -> (r: Result<Message, MessageBuilderError>)
        ensures
            r matches Ok(m) ==> m@.wf(),
            match (self@.address, self@.destination, self@.data) {
                (None, _, _) => (r matches Err(MessageBuilderError::UninitializedField(f)) && f@ == "address"@),
                (Some(_), None, _) => (r matches Err(MessageBuilderError::UninitializedField(f)) && f@ == "destination"@),
                (Some(_), Some(_), None) => (r matches Err(MessageBuilderError::UninitializedField(f)) && f@ == "data"@),
                (Some(a), Some(d), Some(data)) => if data.len() > 255 {
                    (r matches Err(MessageBuilderError::ValidationError(s)) && s@ == "data length cannot exceed 255"@)
                } else {
                    (r matches Ok(m) && m@ == (MessageModel {
                        address: a,
                        destination: d,
                        data_length: data.len() as u8,
                        data: data,
                        checksum: checksum_of(a, d, data.len() as u8, data),
                    }))
                },
            },
    {
        let address = match self.address {
            Some(a) => a,
            None => return Err(MessageBuilderError::UninitializedField("address")),
        };
        let destination = match self.destination {
            Some(d) => d,
            None => return Err(MessageBuilderError::UninitializedField("destination")),
        };
        let data = match self.data {
            Some(d) => d,
            None => return Err(MessageBuilderError::UninitializedField("data")),
        };
        if data.len() > 255 {
            return Err(MessageBuilderError::ValidationError("data length cannot exceed 255".to_owned()));
        }
        let data_length = data.len() as u8;
        let checksum = compute_checksum(address, destination, data_length, data.as_slice());
        Ok(Message { address, destination, data_length, data, checksum })
    }
}

} // verus!
