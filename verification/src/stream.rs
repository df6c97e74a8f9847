use crate::constants::{AUTH_TAG_LEN, CHUNK_SIZE, KEY_LEN, STREAM_NONCE_LEN};
use crate::crypto::{open_chunk, seal_chunk, sealable, stream_seal};
use crate::error::PackError;
use vstd::prelude::*;

verus! {

// ---------------------------------------------------------------------------
// Chunk framing
// ---------------------------------------------------------------------------
/// The concatenation of a sequence of chunks.
pub open spec fn concat_chunks(chunks: Seq<Seq<u8>>) -> Seq<u8>
    decreases chunks.len(),
{
    if chunks.len() == 0 {
        Seq::empty()
    } else {
        concat_chunks(chunks.drop_last()) + chunks.last()
    }
}

/// How a plaintext stream is cut for sealing: full chunks of `CHUNK_SIZE`
/// while more than `CHUNK_SIZE` bytes are left, then one last chunk of at most
/// `CHUNK_SIZE` bytes (empty only for an empty stream).
pub open spec fn stream_chunks(data: Seq<u8>) -> Seq<Seq<u8>>
    decreases data.len(),
{
    if data.len() <= CHUNK_SIZE {
        seq![data]
    } else {
        seq![data.take(CHUNK_SIZE as int)] + stream_chunks(data.skip(CHUNK_SIZE as int))
    }
}

/// The plaintext chunk lengths a reader expects for a stream of `n` bytes:
/// `CHUNK_SIZE` while more than `CHUNK_SIZE` remain, then the rest.
pub open spec fn chunk_plan(n: nat) -> Seq<nat>
    decreases n,
{
    if n <= CHUNK_SIZE {
        seq![n]
    } else {
        seq![CHUNK_SIZE as nat] + chunk_plan((n - CHUNK_SIZE) as nat)
    }
}

/// The lengths of a sequence of chunks.
pub open spec fn chunk_lens(chunks: Seq<Seq<u8>>) -> Seq<nat> {
    chunks.map_values(|c: Seq<u8>| c.len())
}

/// A count as the saturating `u64` counter the stream keeps.
pub open spec fn saturate(n: nat) -> u64 {
    if n > u64::MAX {
        u64::MAX
    } else {
        n as u64
    }
}

proof fn lemma_concat_push(chunks: Seq<Seq<u8>>, c: Seq<u8>)
    ensures
        concat_chunks(chunks.push(c)) == concat_chunks(chunks) + c,
{
    assert(chunks.push(c).drop_last() =~= chunks);
}

proof fn lemma_concat_single(c: Seq<u8>)
    ensures
        concat_chunks(seq![c]) == c,
{
    let one = seq![c];
    assert(one.drop_last() =~= Seq::<Seq<u8>>::empty());
    assert(concat_chunks(Seq::<Seq<u8>>::empty()) == Seq::<u8>::empty());
    assert(one.last() == c);
    assert(Seq::<u8>::empty() + c =~= c);
}

/// Full chunks followed by a tail cut into those chunks followed by the cut
/// of the tail, provided the tail is not empty when there are full chunks.
proof fn lemma_stream_chunks_append(full: Seq<Seq<u8>>, tail: Seq<u8>)
    requires
        forall|i: int| 0 <= i < full.len() ==> #[trigger] full[i].len() == CHUNK_SIZE,
        full.len() > 0 ==> tail.len() > 0,
    ensures
        stream_chunks(concat_chunks(full) + tail) == full + stream_chunks(tail),
    decreases full.len(),
{
    if full.len() == 0 {
        assert(concat_chunks(full) + tail =~= tail);
        assert(full + stream_chunks(tail) =~= stream_chunks(tail));
    } else {
        let first = full[0];
        let rest = full.subrange(1, full.len() as int);
        lemma_concat_first(full);
        lemma_stream_chunks_append(rest, tail);
        let data = concat_chunks(full) + tail;
        assert(data =~= first + (concat_chunks(rest) + tail));
        assert(data.len() > CHUNK_SIZE);
        assert(data.take(CHUNK_SIZE as int) =~= first);
        assert(data.skip(CHUNK_SIZE as int) =~= concat_chunks(rest) + tail);
        assert(full + stream_chunks(tail) =~= seq![first] + (rest + stream_chunks(tail)));
    }
}

proof fn lemma_concat_first(chunks: Seq<Seq<u8>>)
    requires
        chunks.len() > 0,
    ensures
        concat_chunks(chunks) == chunks[0] + concat_chunks(chunks.subrange(1, chunks.len() as int)),
    decreases chunks.len(),
{
    if chunks.len() == 1 {
        assert(chunks.drop_last() =~= Seq::<Seq<u8>>::empty());
        assert(chunks.subrange(1, 1) =~= Seq::<Seq<u8>>::empty());
        assert(chunks[0] + Seq::<u8>::empty() =~= chunks[0]);
    } else {
        let init = chunks.drop_last();
        lemma_concat_first(init);
        assert(init.subrange(1, init.len() as int) =~= chunks.subrange(1, chunks.len() as int).drop_last());
        assert(chunks.subrange(1, chunks.len() as int).last() == chunks.last());
    }
}

/// The cut of a stream is a partition of it: its chunks concatenate back to
/// the stream, every chunk but the last is full, the last is at most full, and
/// their lengths are exactly the plan a reader follows for that many bytes.
pub proof fn stream_chunks_partition(data: Seq<u8>)
    ensures
        concat_chunks(stream_chunks(data)) == data,
        chunk_lens(stream_chunks(data)) == chunk_plan(data.len()),
        stream_chunks(data).last().len() <= CHUNK_SIZE,
        forall|i: int|
            0 <= i < stream_chunks(data).len() - 1 ==> #[trigger] stream_chunks(data)[i].len()
                == CHUNK_SIZE,
    decreases data.len(),
{
    if data.len() <= CHUNK_SIZE {
        lemma_concat_single(data);
        assert(chunk_lens(seq![data]) =~= seq![data.len()]);
    } else {
        let head = data.take(CHUNK_SIZE as int);
        let rest = data.skip(CHUNK_SIZE as int);
        stream_chunks_partition(rest);
        let cs = stream_chunks(data);
        assert(cs == seq![head] + stream_chunks(rest));
        assert(cs.subrange(1, cs.len() as int) =~= stream_chunks(rest));
        lemma_concat_first(cs);
        assert(data =~= head + rest);
        assert(chunk_lens(cs) =~= seq![CHUNK_SIZE as nat] + chunk_lens(stream_chunks(rest)));
        assert forall|i: int| 0 <= i < cs.len() - 1 implies #[trigger] cs[i].len() == CHUNK_SIZE by {
            if i > 0 {
                assert(cs[i] == stream_chunks(rest)[i - 1]);
            }
        }
    }
}

/// Whether a chunk length is sealable: every chunk the stream cuts is.
proof fn lemma_short_chunks_sealable(c: Seq<u8>)
    requires
        c.len() <= CHUNK_SIZE,
    ensures
        sealable(c),
{
}

proof fn lemma_stream_chunks_nonempty(data: Seq<u8>)
    ensures
        stream_chunks(data).len() >= 1,
        data.len() > CHUNK_SIZE ==> stream_chunks(data).len() >= 2,
    decreases data.len(),
{
    if data.len() > CHUNK_SIZE {
        lemma_stream_chunks_nonempty(data.skip(CHUNK_SIZE as int));
    }
}

/// The frames sealed with `encrypt_next` for `chunks`, the first at position
/// `start`.
pub open spec fn next_frames(key: Seq<u8>, nonce: Seq<u8>, chunks: Seq<Seq<u8>>, start: int) -> Seq<
    Seq<u8>,
> {
    Seq::new(chunks.len(), |j: int| stream_seal(key, nonce, (start + j) as u32, false, chunks[j]))
}

/// The frames a stream of `data` is sealed into: its cut (see
/// [`stream_chunks`]), chunk `i` sealed at position `i`, the last one marked
/// last.
pub open spec fn sealed_frames(key: Seq<u8>, nonce: Seq<u8>, data: Seq<u8>) -> Seq<Seq<u8>> {
    let cs = stream_chunks(data);
    Seq::new(
        cs.len(),
        |i: int| stream_seal(key, nonce, i as u32, i == cs.len() - 1, cs[i]),
    )
}

/// Every non-last frame sealed for `chunks` carries a full chunk and its tag.
pub open spec fn frames_sized(key: Seq<u8>, nonce: Seq<u8>, chunks: Seq<Seq<u8>>) -> bool {
    forall|j: int|
        0 <= j < chunks.len() ==> (#[trigger] stream_seal(key, nonce, j as u32, false, chunks[j])).len()
            == CHUNK_SIZE + AUTH_TAG_LEN
}

proof fn lemma_next_frames_push(key: Seq<u8>, nonce: Seq<u8>, chunks: Seq<Seq<u8>>, c: Seq<u8>)
    ensures
        next_frames(key, nonce, chunks.push(c), 0) == next_frames(key, nonce, chunks, 0).push(
            stream_seal(key, nonce, chunks.len() as u32, false, c),
        ),
{
    assert(next_frames(key, nonce, chunks.push(c), 0) =~= next_frames(key, nonce, chunks, 0).push(
        stream_seal(key, nonce, chunks.len() as u32, false, c),
    ));
}

// ---------------------------------------------------------------------------
// Encrypting writer
// ---------------------------------------------------------------------------
/// The state of an encrypting stream: plaintext is buffered, and every full
/// chunk that is followed by more plaintext is sealed as a non-last chunk at
/// the next position of the STREAM counter; `finish` seals what is left as
/// the last chunk.
pub struct StreamEncryptWriter {
    key: Vec<u8>,
    nonce: Vec<u8>,
    position: u32,
    buffer: Vec<u8>,
    plaintext_len: u64,
    accepted: Ghost<Seq<u8>>,
    sealed: Ghost<Seq<Seq<u8>>>,
    emitted: Ghost<Seq<u8>>,
}

impl StreamEncryptWriter {
    /// The key the stream seals with.
    pub closed spec fn key(&self) -> Seq<u8> {
        self.key@
    }

    /// The STREAM nonce.
    pub closed spec fn nonce(&self) -> Seq<u8> {
        self.nonce@
    }

    /// All plaintext accepted so far.
    pub closed spec fn accepted(&self) -> Seq<u8> {
        self.accepted@
    }

    /// The plaintext chunks sealed so far, in order.
    pub closed spec fn sealed(&self) -> Seq<Seq<u8>> {
        self.sealed@
    }

    /// All ciphertext handed out so far.
    pub closed spec fn emitted(&self) -> Seq<u8> {
        self.emitted@
    }

    /// The plaintext waiting for the next chunk or for `finish`.
    pub closed spec fn pending(&self) -> Seq<u8> {
        self.buffer@
    }

    pub closed spec fn wf(&self) -> bool {
        &&& self.key@.len() == KEY_LEN
        &&& self.nonce@.len() == STREAM_NONCE_LEN
        &&& self.accepted@ == concat_chunks(self.sealed@) + self.buffer@
        &&& forall|i: int|
            0 <= i < self.sealed@.len() ==> #[trigger] self.sealed@[i].len() == CHUNK_SIZE
        &&& self.buffer@.len() <= CHUNK_SIZE
        &&& self.sealed@.len() > 0 ==> self.buffer@.len() > 0
        &&& self.plaintext_len == saturate(concat_chunks(self.sealed@).len())
        &&& self.position == self.sealed@.len()
        &&& self.emitted@ == concat_chunks(next_frames(self.key@, self.nonce@, self.sealed@, 0))
        &&& frames_sized(self.key@, self.nonce@, self.sealed@)
    }

    /// What a well-formed stream has sealed, followed by what it holds, is the
    /// cut of what it accepted.
    pub proof fn lemma_sealed_follow_cut(&self)
        requires
            self.wf(),
        ensures
            self.sealed().push(self.pending()) == stream_chunks(self.accepted()),
    {
        lemma_stream_chunks_append(self.sealed@, self.buffer@);
        lemma_concat_single(self.buffer@);
        assert(stream_chunks(self.buffer@) == seq![self.buffer@]);
        assert(self.sealed@ + seq![self.buffer@] =~= self.sealed@.push(self.buffer@));
    }

    /// A stream sealing with `key` and the STREAM `nonce`, with nothing
    /// accepted yet.
    pub fn new(key: Vec<u8>, nonce: Vec<u8>) -> (w: StreamEncryptWriter)
        requires
            key@.len() == KEY_LEN,
            nonce@.len() == STREAM_NONCE_LEN,
        ensures
            w.wf(),
            w.key() == key@,
            w.nonce() == nonce@,
            w.accepted() == Seq::<u8>::empty(),
            w.sealed() == Seq::<Seq<u8>>::empty(),
            w.emitted() == Seq::<u8>::empty(),
            w.pending() == Seq::<u8>::empty(),
    {
        let w = StreamEncryptWriter {
            key,
            nonce,
            position: 0,
            buffer: Vec::new(),
            plaintext_len: 0,
            accepted: Ghost(Seq::empty()),
            sealed: Ghost(Seq::empty()),
            emitted: Ghost(Seq::empty()),
        };
        assert(concat_chunks(w.sealed@) + w.buffer@ =~= Seq::<u8>::empty());
        assert(next_frames(w.key@, w.nonce@, w.sealed@, 0) =~= Seq::<Seq<u8>>::empty());
        w
    }

    /// Accepts `data` and returns the ciphertext of every chunk that became
    /// ready: each is a full chunk, sealed at the next counter position, and
    /// afterwards at most `CHUNK_SIZE` bytes stay pending. This fails only
    /// when the 32-bit STREAM counter would run out, that is when the cut of
    /// all accepted plaintext would need more than `u32::MAX + 1` chunks.
    pub fn write(&mut self, data: &[u8]) -> (r: Result<Vec<u8>, PackError>)
        requires
            old(self).wf(),
        ensures
            r is Ok <==> stream_chunks(old(self).accepted() + data@).len() <= u32::MAX + 1,
            r matches Ok(out) ==> {
                &&& final(self).wf()
                &&& final(self).key() == old(self).key()
                &&& final(self).nonce() == old(self).nonce()
                &&& final(self).accepted() == old(self).accepted() + data@
                &&& final(self).emitted() == old(self).emitted() + out@
                &&& final(self).emitted() == concat_chunks(
                    next_frames(final(self).key(), final(self).nonce(), final(self).sealed(), 0),
                )
                &&& final(self).sealed().push(final(self).pending()) == stream_chunks(
                    final(self).accepted(),
                )
            },
            r matches Err(e) ==> e == PackError::Encryption,
    {
        let ghost old_sealed = self.sealed@;
        let ghost old_accepted = self.accepted@;
        let mut i: usize = 0;
        while i < data.len()
            invariant
                i <= data@.len(),
                self.key@.len() == KEY_LEN,
                self.nonce@.len() == STREAM_NONCE_LEN,
                self.key@ == old(self).key@,
                self.nonce@ == old(self).nonce@,
                self.emitted@ == old(self).emitted@,
                self.position == old(self).position,
                self.accepted@ == old_accepted + data@.take(i as int),
                self.accepted@ == concat_chunks(self.sealed@) + self.buffer@,
                self.sealed@ == old_sealed,
                forall|k: int|
                    0 <= k < self.sealed@.len() ==> #[trigger] self.sealed@[k].len() == CHUNK_SIZE,
                self.sealed@.len() > 0 ==> self.buffer@.len() > 0,
                self.plaintext_len == saturate(concat_chunks(self.sealed@).len()),
                self.position == self.sealed@.len(),
                self.emitted@ == concat_chunks(next_frames(self.key@, self.nonce@, self.sealed@, 0)),
                frames_sized(self.key@, self.nonce@, self.sealed@),
            decreases data@.len() - i,
        {
            let ghost prev_buffer = self.buffer@;
            let ghost prev_accepted = self.accepted@;
            let ghost cc = concat_chunks(self.sealed@);
            let b = data[i];
            self.buffer.push(b);
            i = i + 1;
            proof {
                assert(data@.take(i as int) =~= data@.take(i - 1).push(b));
                assert(cc + prev_buffer.push(b) =~= (cc + prev_buffer).push(b));
                self.accepted@ = prev_accepted.push(b);
            }
        }
        assert(data@.take(i as int) =~= data@);
        let out = self.flush_chunks()?;
        proof {
            self.lemma_sealed_follow_cut();
        }
        Ok(out)
    }

    /// Seals full chunks while more than `CHUNK_SIZE` bytes are pending.
    fn flush_chunks(&mut self) -> (r: Result<Vec<u8>, PackError>)
        requires
            old(self).key@.len() == KEY_LEN,
            old(self).nonce@.len() == STREAM_NONCE_LEN,
            old(self).accepted@ == concat_chunks(old(self).sealed@) + old(self).buffer@,
            forall|i: int|
                0 <= i < old(self).sealed@.len() ==> #[trigger] old(self).sealed@[i].len()
                    == CHUNK_SIZE,
            old(self).sealed@.len() > 0 ==> old(self).buffer@.len() > 0,
            old(self).plaintext_len == saturate(concat_chunks(old(self).sealed@).len()),
            old(self).position == old(self).sealed@.len(),
            old(self).emitted@ == concat_chunks(
                next_frames(old(self).key@, old(self).nonce@, old(self).sealed@, 0),
            ),
            frames_sized(old(self).key@, old(self).nonce@, old(self).sealed@),
        ensures
            r is Ok <==> stream_chunks(old(self).accepted@).len() <= u32::MAX + 1,
            r matches Ok(out) ==> {
                &&& final(self).wf()
                &&& final(self).key@ == old(self).key@
                &&& final(self).nonce@ == old(self).nonce@
                &&& final(self).accepted@ == old(self).accepted@
                &&& final(self).emitted@ == old(self).emitted@ + out@
            },
            r matches Err(e) ==> e == PackError::Encryption,
    {
        let mut out: Vec<u8> = Vec::new();
        while self.buffer.len() > CHUNK_SIZE
            invariant
                self.key@ == old(self).key@,
                self.nonce@ == old(self).nonce@,
                self.key@.len() == KEY_LEN,
                self.nonce@.len() == STREAM_NONCE_LEN,
                self.accepted@ == old(self).accepted@,
                self.accepted@ == concat_chunks(self.sealed@) + self.buffer@,
                forall|i: int|
                    0 <= i < self.sealed@.len() ==> #[trigger] self.sealed@[i].len() == CHUNK_SIZE,
                self.sealed@.len() > 0 ==> self.buffer@.len() > 0,
                self.plaintext_len == saturate(concat_chunks(self.sealed@).len()),
                self.position == self.sealed@.len(),
                self.emitted@ == concat_chunks(next_frames(self.key@, self.nonce@, self.sealed@, 0)),
                self.emitted@ == old(self).emitted@ + out@,
                frames_sized(self.key@, self.nonce@, self.sealed@),
            decreases self.buffer@.len(),
        {
            if self.position == u32::MAX {
                proof {
                    lemma_stream_chunks_append(self.sealed@, self.buffer@);
                    lemma_stream_chunks_nonempty(self.buffer@);
                }
                return Err(PackError::Encryption);
            }
            let ghost before = self.buffer@;
            let mut chunk = self.buffer.split_off(CHUNK_SIZE);
            std::mem::swap(&mut self.buffer, &mut chunk);
            assert(chunk@ =~= before.take(CHUNK_SIZE as int));
            assert(self.buffer@ =~= before.skip(CHUNK_SIZE as int));
            proof {
                lemma_short_chunks_sealable(chunk@);
            }
            let mut encrypted = match seal_chunk(
                &self.key,
                &self.nonce,
                self.position,
                false,
                chunk.as_slice(),
            ) {
                Ok(c) => c,
                Err(e) => {
                    assert(false);
                    return Err(e);
                },
            };
            let ghost prev_sealed = self.sealed@;
            proof {
                self.sealed@ = self.sealed@.push(chunk@);
                lemma_concat_push(prev_sealed, chunk@);
                assert(before =~= chunk@ + self.buffer@);
                assert(concat_chunks(prev_sealed) + before =~= (concat_chunks(prev_sealed)
                    + chunk@) + self.buffer@);
                lemma_next_frames_push(self.key@, self.nonce@, prev_sealed, chunk@);
                lemma_concat_push(next_frames(self.key@, self.nonce@, prev_sealed, 0), encrypted@);
                self.emitted@ = self.emitted@ + encrypted@;
                assert forall|j: int| 0 <= j < self.sealed@.len() implies (#[trigger] stream_seal(
                    self.key@,
                    self.nonce@,
                    j as u32,
                    false,
                    self.sealed@[j],
                )).len() == CHUNK_SIZE + AUTH_TAG_LEN by {
                    if j < prev_sealed.len() {
                        assert(self.sealed@[j] == prev_sealed[j]);
                    }
                }
            }
            self.plaintext_len = self.plaintext_len.saturating_add(chunk.len() as u64);
            self.position = self.position + 1;
            let ghost prev_out = out@;
            out.append(&mut encrypted);
            assert(self.emitted@ =~= old(self).emitted@ + out@);
        }
        proof {
            lemma_stream_chunks_append(self.sealed@, self.buffer@);
            lemma_concat_single(self.buffer@);
            assert(stream_chunks(self.buffer@) == seq![self.buffer@]);
        }
        Ok(out)
    }

    /// Seals the pending plaintext as the last chunk, at the next counter
    /// position. Returns its ciphertext and the number of plaintext bytes the
    /// stream carried, saturated at `u64::MAX`. This cannot fail.
    pub fn finish(self) -> (r: Result<(Vec<u8>, u64), PackError>)
        requires
            self.wf(),
        ensures
            r matches Ok((last, n)) && last@ == stream_seal(
                self.key(),
                self.nonce(),
                self.sealed().len() as u32,
                true,
                self.pending(),
            ) && last@.len() == self.pending().len() + AUTH_TAG_LEN && n == saturate(
                self.accepted().len(),
            ),
    {
        proof {
            lemma_short_chunks_sealable(self.buffer@);
        }
        let encrypted = match seal_chunk(&self.key, &self.nonce, self.position, true, self.buffer.as_slice()) {
            Ok(c) => c,
            Err(e) => {
                assert(false);
                return Err(e);
            },
        };
        let total = self.plaintext_len.saturating_add(self.buffer.len() as u64);
        Ok((encrypted, total))
    }
}

/// Everything a writer hands out, followed by what `finish` returns, is the
/// sealed stream of all plaintext it accepted.
pub proof fn writer_emits_sealed_stream(w: &StreamEncryptWriter)
    requires
        w.wf(),
    ensures
        w.emitted() + stream_seal(w.key(), w.nonce(), w.sealed().len() as u32, true, w.pending())
            == concat_chunks(sealed_frames(w.key(), w.nonce(), w.accepted())),
{
    w.lemma_sealed_follow_cut();
    let k = w.key();
    let n = w.nonce();
    let cs = stream_chunks(w.accepted());
    let last = stream_seal(k, n, w.sealed().len() as u32, true, w.pending());
    assert(sealed_frames(k, n, w.accepted()) =~= next_frames(k, n, w.sealed(), 0).push(last));
    lemma_concat_push(next_frames(k, n, w.sealed(), 0), last);
}

// ---------------------------------------------------------------------------
// Decrypting reader
// ---------------------------------------------------------------------------
/// The state of a decrypting stream of `compressed_size` plaintext bytes. It
/// opens chunks in the order of [`chunk_plan`], each at the next counter
/// position, the last one marked last, and hands out their plaintext.
pub struct StreamDecryptReader {
    key: Vec<u8>,
    nonce: Vec<u8>,
    position: u32,
    remaining_plaintext: u64,
    buffer: Vec<u8>,
    offset: usize,
    done: bool,
    total: Ghost<nat>,
    opened: Ghost<Seq<Seq<u8>>>,
    frames: Ghost<Seq<Seq<u8>>>,
    handed: Ghost<Seq<u8>>,
}

impl StreamDecryptReader {
    /// The key the stream opens with.
    pub closed spec fn key(&self) -> Seq<u8> {
        self.key@
    }

    /// The STREAM nonce.
    pub closed spec fn nonce(&self) -> Seq<u8> {
        self.nonce@
    }

    /// The counter position of the next chunk.
    pub closed spec fn position(&self) -> u32 {
        self.position
    }

    /// Plaintext bytes the stream was created for.
    pub closed spec fn total(&self) -> nat {
        self.total@
    }

    /// Plaintext chunks opened so far.
    pub closed spec fn opened(&self) -> Seq<Seq<u8>> {
        self.opened@
    }

    /// Ciphertext frames opened so far.
    pub closed spec fn frames(&self) -> Seq<Seq<u8>> {
        self.frames@
    }

    /// Plaintext handed out so far.
    pub closed spec fn handed(&self) -> Seq<u8> {
        self.handed@
    }

    /// Plaintext bytes not yet opened.
    pub closed spec fn remaining(&self) -> nat {
        self.remaining_plaintext as nat
    }

    /// Whether the last chunk has been opened (or its opening was attempted).
    pub closed spec fn is_done(&self) -> bool {
        self.done
    }

    /// Opened plaintext not yet handed out.
    pub closed spec fn available(&self) -> Seq<u8> {
        self.buffer@.skip(self.offset as int)
    }

    /// Whether frame `i` was opened as the last one.
    pub closed spec fn opened_as_last(&self, i: int) -> bool {
        self.done && i == self.opened@.len() - 1
    }

    pub closed spec fn wf(&self) -> bool {
        &&& self.key@.len() == KEY_LEN
        &&& self.nonce@.len() == STREAM_NONCE_LEN
        &&& self.offset <= self.buffer@.len()
        &&& !self.done ==> chunk_lens(self.opened@) + chunk_plan(self.remaining_plaintext as nat)
            == chunk_plan(self.total@)
        &&& !self.done ==> self.position == self.opened@.len()
        &&& self.done ==> chunk_lens(self.opened@) == chunk_plan(self.total@)
        &&& self.done ==> self.remaining_plaintext == 0
        &&& self.done ==> self.opened@.len() == self.position + 1
        &&& self.frames@.len() == self.opened@.len()
        &&& forall|i: int|
            0 <= i < self.opened@.len() ==> #[trigger] self.frames@[i].len() == self.opened@[i].len()
                + AUTH_TAG_LEN
        &&& forall|i: int|
            0 <= i < self.opened@.len() ==> #[trigger] self.frames@[i] == stream_seal(
                self.key@,
                self.nonce@,
                i as u32,
                self.opened_as_last(i),
                self.opened@[i],
            )
        &&& forall|i: int, m: Seq<u8>|
            0 <= i < self.opened@.len() && sealable(m) && #[trigger] stream_seal(
                self.key@,
                self.nonce@,
                i as u32,
                self.opened_as_last(i),
                m,
            ) == self.frames@[i] ==> m == self.opened@[i]
        &&& concat_chunks(self.opened@) == self.handed@ + self.buffer@.skip(self.offset as int)
    }

    /// The number of ciphertext bytes the next [`refill`](Self::refill)
    /// consumes: nothing once the last chunk is open, else the next planned
    /// chunk plus its tag.
    pub open spec fn spec_next_read_len(&self) -> nat {
        if self.is_done() {
            0
        } else if self.remaining() <= CHUNK_SIZE {
            self.remaining() + AUTH_TAG_LEN as nat
        } else {
            (CHUNK_SIZE + AUTH_TAG_LEN) as nat
        }
    }

    /// A stream opening with `key` and the STREAM `nonce`, for
    /// `compressed_size` bytes of plaintext.
    pub fn new(key: Vec<u8>, nonce: Vec<u8>, compressed_size: u64) -> (r: StreamDecryptReader)
        requires
            key@.len() == KEY_LEN,
            nonce@.len() == STREAM_NONCE_LEN,
        ensures
            r.wf(),
            r.key() == key@,
            r.nonce() == nonce@,
            r.position() == 0,
            r.total() == compressed_size,
            r.remaining() == compressed_size,
            !r.is_done(),
            r.opened() == Seq::<Seq<u8>>::empty(),
            r.frames() == Seq::<Seq<u8>>::empty(),
            r.handed() == Seq::<u8>::empty(),
            r.available() == Seq::<u8>::empty(),
    {
        let r = StreamDecryptReader {
            key,
            nonce,
            position: 0,
            remaining_plaintext: compressed_size,
            buffer: Vec::new(),
            offset: 0,
            done: false,
            total: Ghost(compressed_size as nat),
            opened: Ghost(Seq::empty()),
            frames: Ghost(Seq::empty()),
            handed: Ghost(Seq::empty()),
        };
        assert(chunk_lens(r.opened@) + chunk_plan(compressed_size as nat) =~= chunk_plan(
            compressed_size as nat,
        ));
        assert(r.buffer@.skip(0) =~= Seq::<u8>::empty());
        r
    }

    /// Whether everything opened has been handed out.
    pub fn needs_refill(&self) -> (b: bool)
        requires
            self.wf(),
        ensures
            b == (self.available().len() == 0),
    {
        self.offset == self.buffer.len()
    }

    /// See [`spec_next_read_len`](Self::spec_next_read_len).
    pub fn next_read_len(&self) -> (n: usize)
        requires
            self.wf(),
        ensures
            n == self.spec_next_read_len(),
    {
        if self.done {
            0
        } else if self.remaining_plaintext <= CHUNK_SIZE as u64 {
            self.remaining_plaintext as usize + AUTH_TAG_LEN
        } else {
            CHUNK_SIZE + AUTH_TAG_LEN
        }
    }

    /// Opens the next chunk from `encrypted`, once all opened plaintext has
    /// been handed out. Once the last chunk is open this only empties the
    /// buffer. Otherwise the chunk is the next one of the plan, opened at the
    /// current counter position: the last one when at most `CHUNK_SIZE` bytes
    /// remain, else a full one, which needs a counter position below
    /// `u32::MAX`. It opens exactly when `encrypted` is the sealing of some
    /// plaintext there, and gives that plaintext.
    pub fn refill(&mut self, encrypted: &[u8]) -> (r: Result<(), PackError>)
        requires
            old(self).wf(),
            old(self).available().len() == 0,
            encrypted@.len() == old(self).spec_next_read_len(),
        ensures
            old(self).is_done() ==> {
                &&& r is Ok
                &&& final(self).wf()
                &&& final(self).available().len() == 0
                &&& final(self).is_done()
                &&& final(self).remaining() == old(self).remaining()
                &&& final(self).position() == old(self).position()
                &&& final(self).key() == old(self).key()
                &&& final(self).nonce() == old(self).nonce()
                &&& final(self).opened() == old(self).opened()
                &&& final(self).frames() == old(self).frames()
                &&& final(self).handed() == old(self).handed()
                &&& final(self).total() == old(self).total()
            },
            !old(self).is_done() ==> {
                let last = old(self).remaining() <= CHUNK_SIZE;
                let len = if last {
                    old(self).remaining()
                } else {
                    CHUNK_SIZE as nat
                };
                &&& r matches Ok(_) ==> {
                    &&& final(self).wf()
                    &&& final(self).is_done() == last
                    &&& final(self).remaining() == old(self).remaining() - len
                    &&& final(self).key() == old(self).key()
                    &&& final(self).nonce() == old(self).nonce()
                    &&& final(self).opened() == old(self).opened().push(final(self).available())
                    &&& final(self).frames() == old(self).frames().push(encrypted@)
                    &&& encrypted@ == stream_seal(
                        old(self).key(),
                        old(self).nonce(),
                        old(self).position(),
                        last,
                        final(self).available(),
                    )
                    &&& final(self).available().len() == len
                    &&& final(self).handed() == old(self).handed()
                    &&& final(self).total() == old(self).total()
                }
                &&& forall|m: Seq<u8>|
                    sealable(m) && (last || old(self).position() < u32::MAX) && #[trigger] stream_seal(
                        old(self).key(),
                        old(self).nonce(),
                        old(self).position(),
                        last,
                        m,
                    ) == encrypted@ ==> (r is Ok && final(self).available() == m)
                &&& r matches Err(e) ==> {
                    &&& e == PackError::Decryption
                    &&& final(self).is_done() == last
                    &&& final(self).remaining() == old(self).remaining() - len
                    &&& final(self).position() == old(self).position()
                    &&& final(self).available().len() == 0
                    &&& final(self).key() == old(self).key()
                    &&& final(self).nonce() == old(self).nonce()
                    &&& final(self).opened() == old(self).opened()
                    &&& final(self).frames() == old(self).frames()
                    &&& final(self).handed() == old(self).handed()
                    &&& final(self).total() == old(self).total()
                }
            },
    {
        if self.done {
            self.buffer.clear();
            self.offset = 0;
            assert(self.buffer@.skip(0) =~= Seq::<u8>::empty());
            return Ok(());
        }
        let ghost old_opened = self.opened@;
        let ghost old_frames = self.frames@;
        let ghost old_remaining = self.remaining_plaintext as nat;
        let ghost old_position = self.position;
        assert(self.buffer@.skip(self.offset as int) =~= Seq::<u8>::empty());
        let final_chunk = self.remaining_plaintext <= CHUNK_SIZE as u64;
        let plaintext_len: usize = if final_chunk {
            self.remaining_plaintext as usize
        } else {
            CHUNK_SIZE
        };
        if final_chunk {
            self.done = true;
            self.remaining_plaintext = 0;
        } else {
            self.remaining_plaintext = self.remaining_plaintext - plaintext_len as u64;
        }
        if !final_chunk && self.position == u32::MAX {
            return Err(PackError::Decryption);
        }
        let decrypted = open_chunk(&self.key, &self.nonce, self.position, final_chunk, encrypted)?;
        if !final_chunk {
            self.position = self.position + 1;
        }
        proof {
            let new_opened = old_opened.push(decrypted@);
            self.opened@ = new_opened;
            self.frames@ = old_frames.push(encrypted@);
            lemma_concat_push(old_opened, decrypted@);
            assert(decrypted@.skip(0) =~= decrypted@);
            assert(new_opened.drop_last() =~= old_opened);
            assert(chunk_lens(new_opened) =~= chunk_lens(old_opened).push(plaintext_len as nat));
            if final_chunk {
                assert(chunk_plan(old_remaining) =~= seq![plaintext_len as nat]);
                assert(chunk_lens(old_opened) + seq![plaintext_len as nat] =~= chunk_lens(
                    old_opened,
                ).push(plaintext_len as nat));
            } else {
                let rest = (old_remaining - CHUNK_SIZE) as nat;
                assert(chunk_plan(old_remaining) == seq![CHUNK_SIZE as nat] + chunk_plan(rest));
                assert(chunk_lens(old_opened) + chunk_plan(old_remaining) =~= chunk_lens(
                    old_opened,
                ).push(CHUNK_SIZE as nat) + chunk_plan(rest));
            }
            assert forall|i: int| 0 <= i < self.opened@.len() implies #[trigger] self.frames@[i].len()
                == self.opened@[i].len() + AUTH_TAG_LEN by {
                if i < old_opened.len() {
                    assert(self.opened@[i] == old_opened[i]);
                    assert(self.frames@[i] == old_frames[i]);
                }
            }
            assert forall|i: int| 0 <= i < self.opened@.len() implies #[trigger] self.frames@[i]
                == stream_seal(
                self.key@,
                self.nonce@,
                i as u32,
                self.opened_as_last(i),
                self.opened@[i],
            ) by {
                if i < old_opened.len() {
                    assert(self.opened@[i] == old_opened[i]);
                    assert(self.frames@[i] == old_frames[i]);
                }
            }
            assert forall|i: int, m: Seq<u8>|
                0 <= i < self.opened@.len() && sealable(m) && #[trigger] stream_seal(
                    self.key@,
                    self.nonce@,
                    i as u32,
                    self.opened_as_last(i),
                    m,
                ) == self.frames@[i] implies m == self.opened@[i] by {
                if i < old_opened.len() {
                    assert(self.opened@[i] == old_opened[i]);
                    assert(self.frames@[i] == old_frames[i]);
                }
            }
        }
        self.buffer = decrypted;
        self.offset = 0;
        Ok(())
    }

    /// Hands out up to `max` bytes of opened plaintext, in order.
    pub fn take_buffered(&mut self, max: usize) -> (out: Vec<u8>)
        requires
            old(self).wf(),
        ensures
            final(self).wf(),
            out@ == old(self).available().take(
                if max < old(self).available().len() {
                    max as int
                } else {
                    old(self).available().len() as int
                },
            ),
            final(self).handed() == old(self).handed() + out@,
            final(self).available() == old(self).available().skip(out@.len() as int),
            final(self).opened() == old(self).opened(),
            final(self).frames() == old(self).frames(),
            final(self).key() == old(self).key(),
            final(self).nonce() == old(self).nonce(),
            final(self).is_done() == old(self).is_done(),
            final(self).remaining() == old(self).remaining(),
            final(self).total() == old(self).total(),
    {
        let available = self.buffer.len() - self.offset;
        let count = if available < max {
            available
        } else {
            max
        };
        let start = self.offset;
        let mut out: Vec<u8> = Vec::new();
        let mut i: usize = 0;
        while i < count
            invariant
                i <= count,
                count <= available,
                start + available == self.buffer@.len(),
                self.offset == start,
                out@ == self.buffer@.subrange(start as int, start + i),
            decreases count - i,
        {
            assert(start + i < self.buffer.len());
            let idx: usize = start + i;
            out.push(self.buffer[idx]);
            i = i + 1;
            assert(out@ =~= self.buffer@.subrange(start as int, start + i));
        }
        self.offset = start + count;
        proof {
            let old_avail = self.buffer@.skip(start as int);
            assert(out@ =~= old_avail.take(count as int));
            assert(self.buffer@.skip(self.offset as int) =~= old_avail.skip(count as int));
            assert(old_avail =~= out@ + old_avail.skip(count as int));
            self.handed@ = self.handed@ + out@;
            assert(self.handed@ + self.buffer@.skip(self.offset as int) =~= old(self).handed@
                + old_avail);
        }
        out
    }
}

/// A reader created for `n` plaintext bytes opens chunks of exactly the
/// lengths a writer seals for `n` bytes of plaintext, so whatever a writer
/// produced for `data` is read back chunk for chunk when `n == data.len()`.
pub proof fn reader_follows_writer(data: Seq<u8>)
    ensures
        chunk_lens(stream_chunks(data)) == chunk_plan(data.len()),
{
    stream_chunks_partition(data);
}

/// A well-formed reader that has opened its last chunk and handed out all of
/// it has handed out exactly `total` bytes: the concatenation of the chunks
/// it opened, whose lengths follow the plan for `total`.
pub proof fn reader_hands_out_total(r: &StreamDecryptReader)
    requires
        r.wf(),
        r.is_done(),
        r.available().len() == 0,
    ensures
        r.handed() == concat_chunks(r.opened()),
        chunk_lens(r.opened()) == chunk_plan(r.total()),
        r.handed().len() == r.total(),
{
    lemma_plan_sum(r.total());
    lemma_concat_len(r.opened());
    assert(r.handed() =~= concat_chunks(r.opened()));
}

/// The sum of a sequence of lengths.
pub open spec fn sum_lens(s: Seq<nat>) -> nat
    decreases s.len(),
{
    if s.len() == 0 {
        0
    } else {
        sum_lens(s.drop_last()) + s.last()
    }
}

proof fn lemma_sum_prepend(x: nat, s: Seq<nat>)
    ensures
        sum_lens(seq![x] + s) == x + sum_lens(s),
    decreases s.len(),
{
    if s.len() == 0 {
        assert(seq![x] + s =~= seq![x]);
        assert(seq![x].drop_last() =~= Seq::<nat>::empty());
        assert(sum_lens(Seq::<nat>::empty()) == 0);
    } else {
        lemma_sum_prepend(x, s.drop_last());
        assert((seq![x] + s).drop_last() =~= seq![x] + s.drop_last());
        assert((seq![x] + s).last() == s.last());
    }
}

proof fn lemma_plan_sum(n: nat)
    ensures
        sum_lens(chunk_plan(n)) == n,
    decreases n,
{
    if n <= CHUNK_SIZE {
        assert(seq![n].drop_last() =~= Seq::<nat>::empty());
        assert(sum_lens(Seq::<nat>::empty()) == 0);
        assert(sum_lens(seq![n]) == n);
    } else {
        lemma_plan_sum((n - CHUNK_SIZE) as nat);
        lemma_sum_prepend(CHUNK_SIZE as nat, chunk_plan((n - CHUNK_SIZE) as nat));
    }
}

proof fn lemma_concat_len(chunks: Seq<Seq<u8>>)
    ensures
        concat_chunks(chunks).len() == sum_lens(chunk_lens(chunks)),
    decreases chunks.len(),
{
    if chunks.len() > 0 {
        lemma_concat_len(chunks.drop_last());
        assert(chunk_lens(chunks).drop_last() =~= chunk_lens(chunks.drop_last()));
    }
}

/// Opening the sealed stream of `data` gives `data` back: a reader created
/// for `data.len()` bytes, with the key and nonce the stream was sealed with,
/// that has opened exactly the frames of [`sealed_frames`] and handed out all
/// it opened, has handed out `data`.
pub proof fn stream_roundtrip(r: &StreamDecryptReader, data: Seq<u8>)
    requires
        r.wf(),
        r.is_done(),
        r.available().len() == 0,
        r.total() == data.len(),
        r.frames() == sealed_frames(r.key(), r.nonce(), data),
    ensures
        r.handed() == data,
{
    let cs = stream_chunks(data);
    stream_chunks_partition(data);
    reader_hands_out_total(r);
    let opened = r.opened();
    assert(chunk_lens(cs).len() == chunk_lens(opened).len());
    assert(cs.len() == opened.len());
    assert forall|i: int| 0 <= i < cs.len() implies #[trigger] cs[i] == opened[i] by {
        if i < cs.len() - 1 {
            assert(cs[i].len() == CHUNK_SIZE);
        } else {
            assert(cs.last().len() <= CHUNK_SIZE);
        }
        lemma_short_chunks_sealable(cs[i]);
        assert(r.frames()[i] == stream_seal(r.key(), r.nonce(), i as u32, i == cs.len() - 1, cs[i]));
        assert(r.opened_as_last(i) == (i == cs.len() - 1));
        assert(stream_seal(r.key@, r.nonce@, i as u32, r.opened_as_last(i), cs[i]) == r.frames@[i]);
    }
    assert(cs =~= opened);
}


proof fn lemma_concat_injective(a: Seq<Seq<u8>>, b: Seq<Seq<u8>>)
    requires
        a.len() == b.len(),
        forall|i: int| 0 <= i < a.len() ==> #[trigger] a[i].len() == b[i].len(),
        concat_chunks(a) == concat_chunks(b),
    ensures
        a == b,
    decreases a.len(),
{
    if a.len() > 0 {
        let a0 = a.drop_last();
        let b0 = b.drop_last();
        let ca = concat_chunks(a0);
        let cb = concat_chunks(b0);
        let total = concat_chunks(a);
        assert(a[a.len() - 1].len() == b[b.len() - 1].len());
        assert(total == ca + a.last());
        assert(total == cb + b.last());
        assert(ca.len() == cb.len());
        assert(ca =~= total.take(ca.len() as int));
        assert(cb =~= total.take(cb.len() as int));
        assert(a.last() =~= total.skip(ca.len() as int));
        assert(b.last() =~= total.skip(cb.len() as int));
        assert forall|i: int| 0 <= i < a0.len() implies #[trigger] a0[i].len() == b0[i].len() by {
            assert(a0[i] == a[i]);
            assert(b0[i] == b[i]);
        }
        lemma_concat_injective(a0, b0);
        assert(a =~= a0.push(a.last()));
        assert(b =~= b0.push(b.last()));
    } else {
        assert(a =~= b);
    }
}

/// Reading back what a writer produced gives back its plaintext: a reader
/// created for as many bytes as the writer accepted, with the writer's key
/// and nonce, that has consumed exactly the writer's output followed by what
/// `finish` returned, opened its last chunk and handed out all it opened,
/// has handed out exactly the plaintext the writer accepted.
pub proof fn writer_output_reads_back(
    w: &StreamEncryptWriter,
    last: Seq<u8>,
    r: &StreamDecryptReader,
)
    requires
        w.wf(),
        last == stream_seal(w.key(), w.nonce(), w.sealed().len() as u32, true, w.pending()),
        last.len() == w.pending().len() + AUTH_TAG_LEN,
        r.wf(),
        r.is_done(),
        r.available().len() == 0,
        r.key() == w.key(),
        r.nonce() == w.nonce(),
        r.total() == w.accepted().len(),
        concat_chunks(r.frames()) == w.emitted() + last,
    ensures
        r.handed() == w.accepted(),
{
    let data = w.accepted();
    let k = w.key();
    let n = w.nonce();
    w.lemma_sealed_follow_cut();
    writer_emits_sealed_stream(w);
    stream_chunks_partition(data);
    reader_hands_out_total(r);
    let cs = stream_chunks(data);
    let sf = sealed_frames(k, n, data);
    let opened = r.opened();
    let frames = r.frames();
    assert(chunk_lens(opened).len() == chunk_lens(cs).len());
    assert forall|i: int| 0 <= i < frames.len() implies #[trigger] frames[i].len() == sf[i].len() by {
        assert(chunk_lens(opened)[i] == chunk_lens(cs)[i]);
        assert(opened[i].len() == cs[i].len());
        if i < cs.len() - 1 {
            assert(cs[i] == w.sealed()[i]);
            assert(stream_seal(k, n, i as u32, false, w.sealed()[i]).len() == CHUNK_SIZE
                + AUTH_TAG_LEN);
        } else {
            assert(cs[i] == w.pending());
        }
    }
    lemma_concat_injective(frames, sf);
    stream_roundtrip(r, data);
}


proof fn lemma_plan_facts(n: nat)
    ensures
        chunk_plan(n).len() >= 1,
        chunk_plan(n)[0] == (if n <= CHUNK_SIZE {
            n
        } else {
            CHUNK_SIZE as nat
        }),
        (chunk_plan(n).len() == 1) == (n <= CHUNK_SIZE),
        forall|i: int| 0 <= i < chunk_plan(n).len() - 1 ==> #[trigger] chunk_plan(n)[i] == CHUNK_SIZE,
        chunk_plan(n).last() <= CHUNK_SIZE,
        chunk_plan(n).len() > 1 ==> chunk_plan(n).last() > 0,
    decreases n,
{
    if n > CHUNK_SIZE {
        let rest = (n - CHUNK_SIZE) as nat;
        lemma_plan_facts(rest);
        let p = chunk_plan(n);
        assert(p == seq![CHUNK_SIZE as nat] + chunk_plan(rest));
        assert forall|i: int| 0 <= i < p.len() - 1 implies #[trigger] p[i] == CHUNK_SIZE by {
            if i > 0 {
                assert(p[i] == chunk_plan(rest)[i - 1]);
            }
        }
        assert(p.last() == chunk_plan(rest).last());
    }
}

/// Chunks whose lengths follow the plan for some count are the cut of their
/// concatenation.
proof fn lemma_cut_of_planned(chunks: Seq<Seq<u8>>, n: nat)
    requires
        chunk_lens(chunks) == chunk_plan(n),
    ensures
        stream_chunks(concat_chunks(chunks)) == chunks,
    decreases n,
{
    assert(chunk_lens(chunks).len() == chunks.len());
    if n <= CHUNK_SIZE {
        assert(chunk_lens(chunks) == seq![n]);
        assert(chunks =~= seq![chunks[0]]);
        lemma_concat_single(chunks[0]);
        assert(chunk_lens(chunks)[0] == chunks[0].len());
    } else {
        let rest_n = (n - CHUNK_SIZE) as nat;
        let rest = chunks.subrange(1, chunks.len() as int);
        assert(chunk_plan(n) == seq![CHUNK_SIZE as nat] + chunk_plan(rest_n));
        assert(chunk_lens(rest) =~= chunk_plan(rest_n)) by {
            assert(chunk_lens(rest) =~= chunk_lens(chunks).subrange(1, chunks.len() as int));
        }
        lemma_cut_of_planned(rest, rest_n);
        lemma_concat_first(chunks);
        lemma_concat_len(rest);
        lemma_plan_sum(rest_n);
        assert(chunk_lens(chunks)[0] == chunks[0].len());
        let data = concat_chunks(chunks);
        assert(data == chunks[0] + concat_chunks(rest));
        assert(data.take(CHUNK_SIZE as int) =~= chunks[0]);
        assert(data.skip(CHUNK_SIZE as int) =~= concat_chunks(rest));
        assert(chunks =~= seq![chunks[0]] + rest);
    }
}

/// A reader that has opened its last chunk and handed out all it opened has
/// handed out one complete stream of `total` bytes, and the frames it opened
/// are exactly the sealing of that stream under its key and nonce: each
/// chunk of its cut at its counter position, only the last one marked last.
pub proof fn finished_reader_read_sealed_stream(r: &StreamDecryptReader)
    requires
        r.wf(),
        r.is_done(),
        r.available().len() == 0,
    ensures
        r.handed().len() == r.total(),
        r.frames() == sealed_frames(r.key(), r.nonce(), r.handed()),
{
    reader_hands_out_total(r);
    lemma_cut_of_planned(r.opened(), r.total());
    let cs = stream_chunks(r.handed());
    assert(cs == r.opened());
    let sf = sealed_frames(r.key(), r.nonce(), r.handed());
    assert forall|i: int| 0 <= i < sf.len() implies #[trigger] sf[i] == r.frames()[i] by {
        assert(r.opened_as_last(i) == (i == cs.len() - 1));
    }
    assert(sf =~= r.frames());
}

proof fn lemma_sum_const(s: Seq<nat>, c: nat)
    requires
        forall|i: int| 0 <= i < s.len() ==> #[trigger] s[i] == c,
    ensures
        sum_lens(s) == s.len() * c,
    decreases s.len(),
{
    if s.len() > 0 {
        lemma_sum_const(s.drop_last(), c);
        assert(s.last() == c);
        let k = s.len();
        assert((k - 1) * c + c == k * c) by (nonlinear_arith);
    }
}

/// The number of chunks a stream of `n` bytes is cut into: one for an empty
/// stream, else `n / CHUNK_SIZE` rounded up.
pub proof fn stream_chunk_count(data: Seq<u8>)
    ensures
        stream_chunks(data).len() == (if data.len() == 0 {
            1
        } else {
            (data.len() + CHUNK_SIZE - 1) / (CHUNK_SIZE as int)
        }),
    decreases data.len(),
{
    let n = data.len();
    if n > CHUNK_SIZE {
        let rest = data.skip(CHUNK_SIZE as int);
        stream_chunk_count(rest);
        assert(rest.len() == n - CHUNK_SIZE);
        assert((n + 65535) / 65536 == 1 + (n - 1) / 65536) by (nonlinear_arith)
            requires
                n > 65536,
        ;
    } else if n > 0 {
        assert((n + 65535) / 65536 == 1) by (nonlinear_arith)
            requires
                1 <= n <= 65536,
        ;
    }
}

/// A writer's whole output (what `write` handed out, followed by what
/// `finish` returned) is the plaintext plus one tag per chunk, and a stream
/// of `n` bytes has `max(1, ceil(n / CHUNK_SIZE))` chunks.
pub proof fn writer_output_length(w: &StreamEncryptWriter, last: Seq<u8>)
    requires
        w.wf(),
        last.len() == w.pending().len() + AUTH_TAG_LEN,
    ensures
        (w.emitted() + last).len() == w.accepted().len() + AUTH_TAG_LEN * (if w.accepted().len()
            == 0 {
            1
        } else {
            (w.accepted().len() + CHUNK_SIZE - 1) / (CHUNK_SIZE as int)
        }),
{
    w.lemma_sealed_follow_cut();
    stream_chunk_count(w.accepted());
    let k = w.key();
    let n = w.nonce();
    let sealed = w.sealed();
    let nf = next_frames(k, n, sealed, 0);
    lemma_concat_len(nf);
    lemma_concat_len(sealed);
    assert forall|i: int| 0 <= i < chunk_lens(nf).len() implies #[trigger] chunk_lens(nf)[i]
        == CHUNK_SIZE + AUTH_TAG_LEN by {
        assert(nf[i] == stream_seal(k, n, i as u32, false, sealed[i]));
    }
    lemma_sum_const(chunk_lens(nf), (CHUNK_SIZE + AUTH_TAG_LEN) as nat);
    lemma_sum_const(chunk_lens(sealed), CHUNK_SIZE as nat);
    let m = sealed.len();
    assert(m * (CHUNK_SIZE + AUTH_TAG_LEN) == m * CHUNK_SIZE + AUTH_TAG_LEN * m) by (nonlinear_arith);
    assert(stream_chunks(w.accepted()).len() == m + 1);
}

/// Reading a writer's output never fails: a reader created for as many
/// bytes as the writer accepted, with its key and nonce, that has opened the
/// first `i` frames of the sealed stream and is not done, expects exactly
/// the length of frame `i` next, and frame `i` is the sealing, at the
/// reader's position and with the last-chunk flag the reader will use, of a
/// sealable chunk `c` (the `i`-th of the cut), so `refill` opens it to `c`.
pub proof fn writer_output_opens_step(
    w: &StreamEncryptWriter,
    last: Seq<u8>,
    r: &StreamDecryptReader,
)
    requires
        w.wf(),
        last == stream_seal(w.key(), w.nonce(), w.sealed().len() as u32, true, w.pending()),
        last.len() == w.pending().len() + AUTH_TAG_LEN,
        r.wf(),
        !r.is_done(),
        r.key() == w.key(),
        r.nonce() == w.nonce(),
        r.total() == w.accepted().len(),
        r.frames() == sealed_frames(w.key(), w.nonce(), w.accepted()).take(
            r.frames().len() as int,
        ),
    ensures
        ({
            let sf = sealed_frames(w.key(), w.nonce(), w.accepted());
            let cs = stream_chunks(w.accepted());
            let i = r.frames().len() as int;
            let fin = r.remaining() <= CHUNK_SIZE;
            &&& i < sf.len()
            &&& sf[i].len() == r.spec_next_read_len()
            &&& fin == (i == sf.len() - 1)
            &&& sealable(cs[i])
            &&& (fin || r.position() < u32::MAX)
            &&& stream_seal(r.key(), r.nonce(), r.position(), fin, cs[i]) == sf[i]
        }),
{
    let data = w.accepted();
    let k = w.key();
    let n = w.nonce();
    let sf = sealed_frames(k, n, data);
    let cs = stream_chunks(data);
    let i = r.frames().len() as int;
    let rem = r.remaining();
    w.lemma_sealed_follow_cut();
    stream_chunks_partition(data);
    lemma_plan_facts(rem);
    let lo = chunk_lens(r.opened());
    let lp = chunk_plan(rem);
    assert(lo + lp == chunk_lens(cs));
    assert(lo.len() == i);
    assert(chunk_lens(cs).len() == cs.len());
    assert((lo + lp).len() == lo.len() + lp.len());
    assert(cs.len() == i + lp.len());
    assert(chunk_lens(cs)[i] == lp[0]);
    assert(cs[i].len() == lp[0]);
    assert((rem <= CHUNK_SIZE) == (i == cs.len() - 1));
    assert(r.position() == i);
    assert(w.sealed().len() + 1 == cs.len());
    if i < cs.len() - 1 {
        assert(cs[i] == w.sealed()[i]);
        assert(stream_seal(k, n, i as u32, false, w.sealed()[i]).len() == CHUNK_SIZE
            + AUTH_TAG_LEN);
    } else {
        assert(cs[i] == w.pending());
    }
    assert(sf[i] == stream_seal(k, n, i as u32, i == cs.len() - 1, cs[i]));
}

} // verus!
