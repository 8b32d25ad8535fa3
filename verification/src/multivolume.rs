//! A chain of volume images presented as one seekable byte stream.
//!
//! Every volume after the first starts with an 8-byte split header, and every
//! volume but the last ends with a 16-byte trailer. The virtual stream is the
//! concatenation of what lies between: positions in it never point into a
//! header or a trailer.

use crate::error::{invalid_seek, unexpected_eof, AlzError, AlzResult};
use crate::text::{padded_digits, push_padded};
use vstd::prelude::*;
use vstd::string::{StrSliceExecFns, StringExecFns};

verus! {

/// The most volumes a chain may have.
pub const MAX_VOLUMES: usize = 1000;

/// Bytes skipped at the start of every volume but the first.
pub const MULTIVOL_HEAD_SIZE: usize = 8;

/// Bytes skipped at the end of every volume but the last.
pub const MULTIVOL_TAIL_SIZE: usize = 16;

/// Bytes skipped at the start of volume `i`.
pub open spec fn header_skip(i: int) -> int {
    if i == 0 {
        0
    } else {
        8
    }
}

/// Bytes skipped at the end of volume `i` in a chain of `count` volumes.
pub open spec fn tail_skip(i: int, count: int) -> int {
    if i == count - 1 {
        0
    } else {
        16
    }
}

/// Whether volume `i` is long enough to hold its header and trailer.
pub open spec fn volume_fits(files: Seq<Seq<u8>>, i: int) -> bool {
    header_skip(i) + tail_skip(i, files.len() as int) <= files[i].len()
}

/// Whether every volume is long enough to hold its header and trailer.
pub open spec fn volumes_fit(files: Seq<Seq<u8>>) -> bool {
    forall|i: int| 0 <= i < files.len() ==> volume_fits(files, i)
}

/// The data band of volume `i`: its bytes without header and trailer.
pub open spec fn volume_band(files: Seq<Seq<u8>>, i: int) -> Seq<u8> {
    files[i].subrange(header_skip(i), files[i].len() - tail_skip(i, files.len() as int))
}

/// The data bands of the first `n` volumes, in order.
pub open spec fn virtual_stream_upto(files: Seq<Seq<u8>>, n: int) -> Seq<u8>
    decreases n,
{
    if n <= 0 {
        Seq::empty()
    } else {
        virtual_stream_upto(files, n - 1) + volume_band(files, n - 1)
    }
}

/// The virtual stream of a chain: all data bands, in order.
pub open spec fn virtual_stream(files: Seq<Seq<u8>>) -> Seq<u8> {
    virtual_stream_upto(files, files.len() as int)
}

/// The `n` bytes of a stream from `pos` on, or nothing where the stream
/// does not hold that many.
pub open spec fn window(stream: Seq<u8>, pos: nat, n: nat) -> Seq<u8> {
    if pos + n <= stream.len() {
        stream.subrange(pos as int, (pos + n) as int)
    } else {
        Seq::empty()
    }
}

/// Where the cursor stands after a read that the stream could not fill: at
/// the end of the stream, or where it stood if that was further.
pub open spec fn after_short_read(stream: Seq<u8>, pos: nat) -> nat {
    if pos >= stream.len() {
        pos
    } else {
        stream.len()
    }
}

/// The end-info block of a volume image: its last 16 bytes, or zeros where
/// the image is shorter than that.
pub open spec fn end_info(file: Seq<u8>) -> Seq<u8> {
    if file.len() >= 16 {
        file.subrange(file.len() - 16, file.len() as int)
    } else {
        Seq::new(16, |i: int| 0u8)
    }
}

/// The chain that `open` builds from the images it is given: the first
/// `MAX_VOLUMES` of them.
pub open spec fn chain_of(images: Seq<Seq<u8>>) -> Seq<Seq<u8>> {
    if images.len() > MAX_VOLUMES {
        images.subrange(0, MAX_VOLUMES as int)
    } else {
        images
    }
}

/// The views of a vector of byte vectors.
pub open spec fn images_of(files: Seq<Vec<u8>>) -> Seq<Seq<u8>> {
    Seq::new(files.len(), |i: int| files[i]@)
}

/// The stream grows monotonically with the number of volumes counted.
pub proof fn lemma_stream_upto_len(files: Seq<Seq<u8>>, m: int, n: int)
    requires
        volumes_fit(files),
        0 <= m <= n <= files.len(),
    ensures
        virtual_stream_upto(files, m).len() <= virtual_stream_upto(files, n).len(),
        m < n ==> virtual_stream_upto(files, m).len() + volume_band(files, m).len()
            <= virtual_stream_upto(files, n).len(),
    decreases n - m,
{
    if m < n {
        assert(volume_fits(files, n - 1));
        if m < n - 1 {
            lemma_stream_upto_len(files, m, n - 1);
        }
    }
}

/// Byte `k` of volume `v`'s data band is byte `k` after the bands before it
/// in the stream of the first `n` volumes, for every `n` past `v`.
pub proof fn lemma_stream_upto_index(files: Seq<Seq<u8>>, v: int, k: int, n: int)
    requires
        volumes_fit(files),
        0 <= v < n <= files.len(),
        0 <= k < volume_band(files, v).len(),
    ensures
        virtual_stream_upto(files, v).len() + k < virtual_stream_upto(files, n).len(),
        virtual_stream_upto(files, n)[virtual_stream_upto(files, v).len() + k] == volume_band(
            files,
            v,
        )[k],
    decreases n - v,
{
    assert(volume_fits(files, n - 1));
    if v < n - 1 {
        lemma_stream_upto_index(files, v, k, n - 1);
    }
}

/// Multi-volume transparency: the byte at a virtual position inside volume
/// `v`'s band is the byte of that volume's image at the physical offset
/// `header_skip(v) + k`, where `k` counts from the end of the bands before.
pub proof fn lemma_virtual_byte(files: Seq<Seq<u8>>, v: int, k: int)
    requires
        volumes_fit(files),
        0 <= v < files.len(),
        0 <= k < volume_band(files, v).len(),
    ensures
        virtual_stream_upto(files, v).len() + k < virtual_stream(files).len(),
        virtual_stream(files)[virtual_stream_upto(files, v).len() + k] == files[v][header_skip(v)
            + k],
{
    lemma_stream_upto_index(files, v, k, files.len() as int);
    assert(volume_fits(files, v));
}

/// A range of the virtual stream that lies inside one volume's band is the
/// matching physical range of that volume's image.
pub proof fn lemma_virtual_range(files: Seq<Seq<u8>>, v: int, k: int, n: int)
    requires
        volumes_fit(files),
        0 <= v < files.len(),
        0 <= k,
        0 <= n,
        k + n <= volume_band(files, v).len(),
    ensures
        virtual_stream_upto(files, v).len() + k + n <= virtual_stream(files).len(),
        virtual_stream(files).subrange(
            virtual_stream_upto(files, v).len() + k,
            virtual_stream_upto(files, v).len() + k + n,
        ) == files[v].subrange(header_skip(v) + k, header_skip(v) + k + n),
{
    let base = virtual_stream_upto(files, v).len() as int;
    lemma_stream_upto_len(files, v, files.len() as int);
    assert(volume_fits(files, v));
    let a = virtual_stream(files).subrange(base + k, base + k + n);
    let b = files[v].subrange(header_skip(v) + k, header_skip(v) + k + n);
    assert forall|j: int| 0 <= j < n implies a[j] == b[j] by {
        lemma_virtual_byte(files, v, k + j);
    }
    assert(a =~= b);
}

/// `x` held between `lo` and `hi`.
pub open spec fn clamped(x: int, lo: int, hi: int) -> int {
    if x < lo {
        lo
    } else if x > hi {
        hi
    } else {
        x
    }
}

/// The part of volume `v`'s image that holds the bytes `a` to `b` of the
/// virtual stream, as far as they lie in that volume: a physical range
/// between the volume's header and its trailer.
pub open spec fn physical_part(files: Seq<Seq<u8>>, v: int, a: int, b: int) -> Seq<u8> {
    let start = virtual_stream_upto(files, v).len() as int;
    let len = volume_band(files, v).len() as int;
    files[v].subrange(
        header_skip(v) + clamped(a - start, 0, len),
        header_skip(v) + clamped(b - start, 0, len),
    )
}

/// The physical parts of the first `n` volumes for the bytes `a` to `b` of
/// the virtual stream, joined in order.
pub open spec fn physical_parts(files: Seq<Seq<u8>>, n: int, a: int, b: int) -> Seq<u8>
    decreases n,
{
    if n <= 0 {
        Seq::empty()
    } else {
        physical_parts(files, n - 1, a, b) + physical_part(files, n - 1, a, b)
    }
}

/// The physical parts of the first `n` volumes are the matching range of
/// their bands.
proof fn lemma_parts_upto(files: Seq<Seq<u8>>, n: int, a: int, b: int)
    requires
        volumes_fit(files),
        0 <= n <= files.len(),
        0 <= a <= b,
    ensures
        physical_parts(files, n, a, b) == virtual_stream_upto(files, n).subrange(
            clamped(a, 0, virtual_stream_upto(files, n).len() as int),
            clamped(b, 0, virtual_stream_upto(files, n).len() as int),
        ),
    decreases n,
{
    if n == 0 {
        assert(virtual_stream_upto(files, 0).subrange(0, 0) =~= Seq::<u8>::empty());
    } else {
        lemma_parts_upto(files, n - 1, a, b);
        assert(volume_fits(files, n - 1));
        let before = virtual_stream_upto(files, n - 1);
        let band = volume_band(files, n - 1);
        let start = before.len() as int;
        let len = band.len() as int;
        let lo = clamped(a - start, 0, len);
        let hi = clamped(b - start, 0, len);
        assert(physical_part(files, n - 1, a, b) =~= band.subrange(lo, hi));
        assert((before + band).subrange(clamped(a, 0, start + len), clamped(b, 0, start + len))
            =~= before.subrange(clamped(a, 0, start), clamped(b, 0, start)) + band.subrange(
            lo,
            hi,
        ));
    }
}

/// Multi-volume transparency: the bytes `a` to `b` of the virtual stream
/// are the physical ranges of the volumes that hold them, joined in the
/// order of the volumes. No byte of a header or a trailer is among them.
pub proof fn lemma_range_is_physical_parts(files: Seq<Seq<u8>>, a: int, b: int)
    requires
        volumes_fit(files),
        0 <= a <= b <= virtual_stream(files).len(),
    ensures
        virtual_stream(files).subrange(a, b) == physical_parts(files, files.len() as int, a, b),
{
    lemma_parts_upto(files, files.len() as int, a, b);
}

/// The stream of a single volume is that volume's image.
pub proof fn lemma_single_volume_stream(image: Seq<u8>)
    ensures
        volumes_fit(seq![image]),
        virtual_stream(seq![image]) == image,
{
    let files = seq![image];
    assert(virtual_stream_upto(files, 0) =~= Seq::<u8>::empty());
    assert(volume_band(files, 0) =~= image);
    assert(virtual_stream_upto(files, 1) =~= image);
}

/// The letter in the name of the `index`-th volume after the first: `a` for
/// the first hundred, `b` for the second, and so on.
pub open spec fn volume_letter(index: int) -> char {
    let hundred = (index - 1) / 100;
    if hundred == 0 {
        'a'
    } else if hundred == 1 {
        'b'
    } else if hundred == 2 {
        'c'
    } else if hundred == 3 {
        'd'
    } else if hundred == 4 {
        'e'
    } else if hundred == 5 {
        'f'
    } else if hundred == 6 {
        'g'
    } else if hundred == 7 {
        'h'
    } else if hundred == 8 {
        'i'
    } else {
        'j'
    }
}

/// The path of volume `index` of the archive at `path`: the path itself for
/// the first volume, and for every other the path with its last three
/// characters replaced by the volume's letter and two decimal digits.
pub open spec fn volume_path_text(path: Seq<char>, index: int) -> Seq<char> {
    if index == 0 {
        path
    } else {
        path.subrange(0, path.len() - 3) + seq![volume_letter(index)] + padded_digits(
            ((index - 1) % 100) as nat,
            10,
            2,
        )
    }
}

/// Names the file that holds volume `index` of the archive at `path`:
/// `name.alz`, `name.a00`, `name.a01`, and so on to `name.j98`. A path of
/// fewer than four characters cannot name an archive.
pub fn volume_path(path: &str, index: usize) -> (r: AlzResult<String>)
    requires
        index < MAX_VOLUMES,
    ensures
        r is Ok <==> path@.len() >= 4,
        r matches Ok(p) ==> p@ == volume_path_text(path@, index as int),
        r matches Err(e) ==> e is CantOpenFile,
{
    let len = path.unicode_len();
    if len < 4 {
        return Err(AlzError::CantOpenFile(path_too_short()));
    }
    if index == 0 {
        return Ok(path.to_owned());
    }
    let mut name = path.substring_char(0, len - 3).to_owned();
    proof {
        reveal_strlit("a");
        reveal_strlit("b");
        reveal_strlit("c");
        reveal_strlit("d");
        reveal_strlit("e");
        reveal_strlit("f");
        reveal_strlit("g");
        reveal_strlit("h");
        reveal_strlit("i");
        reveal_strlit("j");
    }
    let letter = match (index - 1) / 100 {
        0 => "a",
        1 => "b",
        2 => "c",
        3 => "d",
        4 => "e",
        5 => "f",
        6 => "g",
        7 => "h",
        8 => "i",
        _ => "j",
    };
    proof {
        assert(letter@ =~= seq![volume_letter(index as int)]);
    }
    name.append(letter);
    push_padded(&mut name, ((index - 1) % 100) as u64, 10, 2);
    proof {
        assert(name@ =~= volume_path_text(path@, index as int));
    }
    Ok(name)
}

/// Where a seek starts counting from.
#[derive(Clone, Copy, Debug)]
pub enum SeekFrom {
    /// From the start of the stream.
    Start(u64),
    /// From the end of the stream.
    End(i64),
    /// From the current position.
    Current(i64),
}

/// The position a seek asks for, as an unbounded integer.
pub open spec fn seek_target(from: SeekFrom, position: nat, total: nat) -> int {
    match from {
        SeekFrom::Start(p) => p as int,
        SeekFrom::End(delta) => total + delta,
        SeekFrom::Current(delta) => position + delta,
    }
}

struct Volume {
    data: Vec<u8>,
    header_size: usize,
    tail_size: usize,
}

impl Volume {
    /// Length of the data band.
    fn data_size(&self) -> (n: usize)
        requires
            self.header_size + self.tail_size <= self.data@.len(),
        ensures
            n == self.data@.len() - self.header_size - self.tail_size,
    {
        self.data.len() - self.header_size - self.tail_size
    }
}

/// Virtual reader over the volumes of an archive.
pub struct MultiVolumeReader {
    volumes: Vec<Volume>,
    cur_volume: usize,
    phys_pos: usize,
    virtual_pos: u64,
    tail: [u8; 16],
}

/// Copies `n` bytes of `src`, from `src_off` on, over `dst` from `dst_off` on.
fn copy_range(dst: &mut [u8], dst_off: usize, src: &Vec<u8>, src_off: usize, n: usize)
    requires
        dst_off + n <= old(dst)@.len(),
        src_off + n <= src@.len(),
    ensures
        final(dst)@.len() == old(dst)@.len(),
        final(dst)@.subrange(dst_off as int, dst_off + n) == src@.subrange(
            src_off as int,
            src_off + n,
        ),
        forall|j: int|
            0 <= j < old(dst)@.len() && !(dst_off <= j < dst_off + n) ==> final(dst)@[j] == old(
                dst,
            )@[j],
{
    let dst_len = dst.len();
    let src_len = src.len();
    let mut k: usize = 0;
    while k < n
        invariant
            k <= n,
            dst@.len() == dst_len,
            src@.len() == src_len,
            dst@.len() == old(dst)@.len(),
            dst_off + n <= dst@.len(),
            src_off + n <= src@.len(),
            forall|j: int| dst_off <= j < dst_off + k ==> dst@[j] == src@[j - dst_off + src_off],
            forall|j: int|
                0 <= j < dst@.len() && !(dst_off <= j < dst_off + k) ==> dst@[j] == old(dst)@[j],
        decreases n - k,
    {
        dst[dst_off + k] = src[src_off + k];
        k += 1;
    }
    assert(dst@.subrange(dst_off as int, dst_off + n) =~= src@.subrange(
        src_off as int,
        src_off + n,
    ));
}

impl MultiVolumeReader {
    /// The volume images of the chain, first volume first.
    pub closed spec fn files(&self) -> Seq<Seq<u8>> {
        Seq::new(self.volumes@.len(), |i: int| self.volumes@[i].data@)
    }

    /// The virtual stream that the reader presents.
    pub open spec fn stream(&self) -> Seq<u8> {
        virtual_stream(self.files())
    }

    /// The virtual position of the next byte to read.
    pub closed spec fn position(&self) -> nat {
        self.virtual_pos as nat
    }

    /// The end-info block that the reader holds.
    pub closed spec fn tail_bytes(&self) -> Seq<u8> {
        self.tail@
    }

    /// The reader's invariant: at least one volume, every volume long enough
    /// for its header and trailer, a stream that a `u64` can measure, and a
    /// cursor that agrees with the virtual position.
    pub closed spec fn wf(&self) -> bool {
        let files = self.files();
        let count = self.volumes@.len() as int;
        &&& 1 <= count
        &&& volumes_fit(files)
        &&& virtual_stream(files).len() <= u64::MAX
        &&& self.tail@ == end_info(files[0])
        &&& forall|i: int|
            0 <= i < count ==> (#[trigger] self.volumes@[i]).header_size == header_skip(i)
                && self.volumes@[i].tail_size == tail_skip(i, count)
        &&& self.cur_volume <= count
        &&& if self.cur_volume < count {
            let v = self.cur_volume as int;
            &&& header_skip(v) <= self.phys_pos <= files[v].len() - tail_skip(v, count)
            &&& self.virtual_pos == virtual_stream_upto(files, v).len() + self.phys_pos
                - header_skip(v)
        } else {
            self.virtual_pos >= virtual_stream(files).len()
        }
    }

    /// A well-formed reader has a chain whose volumes all fit.
    pub proof fn lemma_wf_facts(&self)
        requires
            self.wf(),
        ensures
            self.files().len() >= 1,
            volumes_fit(self.files()),
            self.stream().len() <= u64::MAX,
            self.tail_bytes() == end_info(self.files()[0]),
    {
    }

    /// Builds a reader over a chain of volume images, first volume first.
    /// Images past the first `MAX_VOLUMES` are ignored.
    pub fn open(images: Vec<Vec<u8>>) -> (r: AlzResult<Self>)
        ensures
            images@.len() == 0 <==> r matches Err(AlzError::CantOpenFile(_)),
            images@.len() > 0 && (!volumes_fit(chain_of(images_of(images@))) || virtual_stream(
                chain_of(images_of(images@)),
            ).len() > u64::MAX) <==> r matches Err(AlzError::CorruptedFile),
            r matches Err(e) ==> e is CantOpenFile || e is CorruptedFile,
            r matches Ok(reader) ==> reader.wf() && reader.files() == chain_of(images_of(images@))
                && reader.position() == 0,
    {
        let ghost given = images@;
        let ghost chain = chain_of(images_of(images@));
        let mut rest = images;
        if rest.len() == 0 {
            return Err(AlzError::CantOpenFile(missing_first_volume()));
        }
        if rest.len() > MAX_VOLUMES {
            rest.truncate(MAX_VOLUMES);
        }
        assert(images_of(rest@) =~= chain);
        let count = rest.len();
        let mut volumes: Vec<Volume> = Vec::new();
        let mut total: u64 = 0;
        let mut i: usize = 0;
        while i < count
            invariant
                i <= count,
                count == rest@.len(),
                count == chain.len(),
                1 <= count <= MAX_VOLUMES,
                given.len() > 0,
                given == images@,
                chain == chain_of(images_of(given)),
                volumes@.len() == i,
                forall|j: int| 0 <= j < i ==> (#[trigger] volumes@[j]).data@ == chain[j],
                forall|j: int| i <= j < count ==> (#[trigger] rest@[j])@ == chain[j],
                forall|j: int|
                    0 <= j < i ==> (#[trigger] volumes@[j]).header_size == header_skip(j)
                        && volumes@[j].tail_size == tail_skip(j, count as int),
                forall|j: int| 0 <= j < i ==> volume_fits(chain, j),
                total == virtual_stream_upto(chain, i as int).len(),
            decreases count - i,
        {
            let header_size: usize = if i == 0 {
                0
            } else {
                MULTIVOL_HEAD_SIZE
            };
            let tail_size: usize = if i == count - 1 {
                0
            } else {
                MULTIVOL_TAIL_SIZE
            };
            let mut data: Vec<u8> = Vec::new();
            std::mem::swap(&mut data, &mut rest[i]);
            if data.len() < header_size + tail_size {
                assert(!volume_fits(chain, i as int));
                return Err(AlzError::CorruptedFile);
            }
            assert(volume_fits(chain, i as int));
            let band = data.len() - header_size - tail_size;
            assert(band == volume_band(chain, i as int).len());
            if band as u64 > u64::MAX - total {
                proof {
                    if volumes_fit(chain) {
                        lemma_stream_upto_len(chain, i as int, chain.len() as int);
                    }
                }
                return Err(AlzError::CorruptedFile);
            }
            total = total + band as u64;
            volumes.push(Volume { data, header_size, tail_size });
            i += 1;
        }
        let mut tail = [0u8; 16];
        let first_len = volumes[0].data.len();
        if first_len >= 16 {
            let mut k: usize = 0;
            while k < 16
                invariant
                    k <= 16,
                    volumes@.len() >= 1,
                    first_len == volumes@[0].data@.len(),
                    first_len >= 16,
                    forall|j: int| 0 <= j < k ==> tail@[j] == volumes@[0].data@[first_len - 16 + j],
                decreases 16 - k,
            {
                tail[k] = volumes[0].data[first_len - 16 + k];
                k += 1;
            }
        }
        let reader = MultiVolumeReader { volumes, cur_volume: 0, phys_pos: 0, virtual_pos: 0, tail };
        proof {
            assert(volumes_fit(chain));
            assert(reader.files() =~= chain);
            assert(tail@ =~= end_info(chain[0]));
            assert(virtual_stream_upto(chain, 0).len() == 0);
            assert(volume_fits(chain, 0));
        }
        Ok(reader)
    }

    /// Builds a reader over a single in-memory volume.
    pub fn from_bytes(data: Vec<u8>) -> (reader: Self)
        ensures
            reader.wf(),
            reader.files() == seq![data@],
            reader.stream() == data@,
            reader.position() == 0,
    {
        let len = data.len();
        let mut tail = [0u8; 16];
        if len >= 16 {
            let mut k: usize = 0;
            while k < 16
                invariant
                    k <= 16,
                    len == data@.len(),
                    len >= 16,
                    forall|j: int| 0 <= j < k ==> tail@[j] == data@[len - 16 + j],
                decreases 16 - k,
            {
                tail[k] = data[len - 16 + k];
                k += 1;
            }
        }
        let ghost image = data@;
        let mut volumes: Vec<Volume> = Vec::new();
        volumes.push(Volume { data, header_size: 0, tail_size: 0 });
        let reader = MultiVolumeReader { volumes, cur_volume: 0, phys_pos: 0, virtual_pos: 0, tail };
        proof {
            assert(reader.files() =~= seq![image]);
            lemma_single_volume_stream(image);
            assert(tail@ =~= end_info(image));
            assert(virtual_stream_upto(seq![image], 0).len() == 0);
        }
        reader
    }

    /// The 16-byte end-info block of the first volume.
    pub fn tail(&self) -> (t: &[u8; 16])
        ensures
            t@ == self.tail_bytes(),
    {
        &self.tail
    }

    /// Length of the virtual stream.
    pub fn total_size(&self) -> (n: u64)
        requires
            self.wf(),
        ensures
            n == self.stream().len(),
    {
        let ghost files = self.files();
        let count = self.volumes.len();
        let mut total: u64 = 0;
        let mut i: usize = 0;
        while i < count
            invariant
                self.wf(),
                files == self.files(),
                count == self.volumes@.len(),
                i <= count,
                total == virtual_stream_upto(files, i as int).len(),
            decreases count - i,
        {
            proof {
                lemma_stream_upto_len(files, i as int, count as int);
                assert(volume_fits(files, i as int));
            }
            let n = self.volumes[i].data_size();
            total = total + n as u64;
            i += 1;
        }
        total
    }

    /// The virtual position of the next byte to read.
    pub fn stream_position(&self) -> (p: u64)
        ensures
            p == self.position(),
    {
        self.virtual_pos
    }

    /// Places the cursor at virtual position `offset`. Positions past the
    /// end are accepted; reads from there yield nothing.
    fn seek_to_virtual(&mut self, offset: u64)
        requires
            old(self).wf(),
        ensures
            final(self).wf(),
            final(self).files() == old(self).files(),
            final(self).tail_bytes() == old(self).tail_bytes(),
            final(self).position() == offset,
    {
        let ghost files = self.files();
        let count = self.volumes.len();
        let mut remain: u64 = offset;
        let mut i: usize = 0;
        while i < count
            invariant
                self.wf(),
                files == self.files(),
                files == old(self).files(),
                self.tail_bytes() == old(self).tail_bytes(),
                count == self.volumes@.len(),
                i <= count,
                offset == virtual_stream_upto(files, i as int).len() + remain,
                i > 0 ==> remain > 0,
            decreases count - i,
        {
            proof {
                lemma_stream_upto_len(files, i as int, count as int);
                assert(volume_fits(files, i as int));
            }
            let data_size = self.volumes[i].data_size();
            if remain <= data_size as u64 {
                let header = self.volumes[i].header_size;
                let image_len = self.volumes[i].data.len();
                assert(remain + header <= image_len);
                self.virtual_pos = offset;
                self.cur_volume = i;
                self.phys_pos = remain as usize + header;
                proof {
                    assert(self.files() =~= files);
                }
                return ;
            }
            remain = remain - data_size as u64;
            i += 1;
        }
        self.virtual_pos = offset;
        self.cur_volume = count;
        self.phys_pos = 0;
        proof {
            assert(self.files() =~= files);
        }
    }

    /// Moves the cursor. A target before the start of the stream, or past
    /// what a `u64` can hold, is refused and leaves the cursor where it was.
    pub fn seek(&mut self, pos: SeekFrom) -> (r: Result<u64, std::io::Error>)
        requires
            old(self).wf(),
        ensures
            final(self).wf(),
            final(self).files() == old(self).files(),
            final(self).tail_bytes() == old(self).tail_bytes(),
            r is Ok <==> 0 <= seek_target(pos, old(self).position(), old(self).stream().len())
                <= u64::MAX,
            r matches Ok(p) ==> p == seek_target(
                pos,
                old(self).position(),
                old(self).stream().len(),
            ) && final(self).position() == p,
            r is Err ==> final(self).position() == old(self).position(),
    {
        let target: Option<u64> = match pos {
            SeekFrom::Start(p) => Some(p),
            SeekFrom::Current(delta) => self.virtual_pos.checked_add_signed(delta),
            SeekFrom::End(delta) => self.total_size().checked_add_signed(delta),
        };
        match target {
            Some(p) => {
                self.seek_to_virtual(p);
                Ok(p)
            },
            None => Err(invalid_seek()),
        }
    }

    /// Reads up to `buf.len()` bytes from the cursor on, crossing volume
    /// boundaries as needed, and returns how many were read: all that were
    /// asked for, or all that the stream still holds.
    pub fn read(&mut self, buf: &mut [u8]) -> (n: usize)
        requires
            old(self).wf(),
        ensures
            final(self).wf(),
            final(self).files() == old(self).files(),
            final(self).tail_bytes() == old(self).tail_bytes(),
            final(buf)@.len() == old(buf)@.len(),
            n == if old(self).position() >= old(self).stream().len() {
                0
            } else if old(self).stream().len() - old(self).position() < old(buf)@.len() {
                old(self).stream().len() - old(self).position()
            } else {
                old(buf)@.len() as int
            },
            final(self).position() == old(self).position() + n,
            n > 0 ==> final(buf)@.subrange(0, n as int) == old(self).stream().subrange(
                old(self).position() as int,
                old(self).position() + n,
            ),
            final(buf)@.subrange(n as int, old(buf)@.len() as int) == old(buf)@.subrange(
                n as int,
                old(buf)@.len() as int,
            ),
    {
        let ghost files = self.files();
        let ghost stream = self.stream();
        let ghost start = self.position() as int;
        let count = self.volumes.len();
        let want = buf.len();
        let mut total_read: usize = 0;
        while total_read < want && self.cur_volume < count
            invariant
                self.wf(),
                files == self.files(),
                stream == virtual_stream(files),
                self.tail_bytes() == old(self).tail_bytes(),
                count == self.volumes@.len(),
                want == buf@.len(),
                want == old(buf)@.len(),
                total_read <= want,
                0 <= start,
                self.position() == start + total_read,
                start + total_read <= stream.len() || total_read == 0,
                total_read > 0 ==> buf@.subrange(0, total_read as int) == stream.subrange(
                    start,
                    start + total_read,
                ),
                forall|j: int| total_read <= j < want ==> buf@[j] == old(buf)@[j],
            decreases want - total_read, count - self.cur_volume,
        {
            let v = self.cur_volume;
            proof {
                assert(volume_fits(files, v as int));
                lemma_stream_upto_len(files, v as int, count as int);
            }
            let data_end = self.volumes[v].data.len() - self.volumes[v].tail_size;
            let avail = data_end - self.phys_pos;
            if avail == 0 {
                self.cur_volume = v + 1;
                if v + 1 < count {
                    self.phys_pos = self.volumes[v + 1].header_size;
                } else {
                    self.phys_pos = 0;
                }
                proof {
                    assert(self.files() =~= files);
                    assert(volume_band(files, v as int).len() == files[v as int].len() - tail_skip(
                        v as int,
                        count as int,
                    ) - header_skip(v as int));
                    if v + 1 < count {
                        assert(volume_fits(files, v + 1));
                    }
                }
                continue ;
            }
            let to_read = if avail < want - total_read {
                avail
            } else {
                want - total_read
            };
            let ghost before = buf@;
            let ghost k = self.phys_pos - header_skip(v as int);
            proof {
                lemma_virtual_range(files, v as int, k, to_read as int);
            }
            copy_range(buf, total_read, &self.volumes[v].data, self.phys_pos, to_read);
            proof {
                assert(start + total_read == virtual_stream_upto(files, v as int).len() + k);
                assert(buf@.subrange(0, total_read as int) =~= before.subrange(0, total_read as int));
                assert(buf@.subrange(0, total_read + to_read) =~= before.subrange(
                    0,
                    total_read as int,
                ) + buf@.subrange(total_read as int, total_read + to_read));
                assert(stream.subrange(start, start + total_read + to_read) =~= stream.subrange(
                    start,
                    start + total_read,
                ) + stream.subrange(start + total_read, start + total_read + to_read));
            }
            total_read = total_read + to_read;
            self.virtual_pos = self.virtual_pos + to_read as u64;
            self.phys_pos = self.phys_pos + to_read;
            proof {
                assert(self.files() =~= files);
            }
        }
        proof {
            assert(buf@.subrange(total_read as int, want as int) =~= old(buf)@.subrange(
                total_read as int,
                want as int,
            ));
        }
        total_read
    }

    /// Fills `buf` from the cursor on, or fails where the stream holds fewer
    /// bytes than that. On failure the cursor is left at the end of the
    /// stream (or where it was, if that was further).
    pub fn read_exact(&mut self, buf: &mut [u8]) -> (r: Result<(), std::io::Error>)
        requires
            old(self).wf(),
        ensures
            final(self).wf(),
            final(self).files() == old(self).files(),
            final(self).tail_bytes() == old(self).tail_bytes(),
            final(buf)@.len() == old(buf)@.len(),
            r is Ok <==> old(self).position() + old(buf)@.len() <= old(self).stream().len()
                || old(buf)@.len() == 0,
            r is Ok ==> final(self).position() == old(self).position() + old(buf)@.len(),
            r is Ok && old(buf)@.len() > 0 ==> final(buf)@ == old(self).stream().subrange(
                old(self).position() as int,
                (old(self).position() + old(buf)@.len()) as int,
            ),
            r is Err ==> final(self).position() == after_short_read(
                old(self).stream(),
                old(self).position(),
            ),
    {
        let want = buf.len();
        let n = self.read(buf);
        if n < want {
            Err(unexpected_eof())
        } else {
            proof {
                assert(buf@.subrange(0, n as int) =~= buf@);
                if want == 0 && old(self).position() <= old(self).stream().len() {
                    assert(buf@ =~= old(self).stream().subrange(
                        old(self).position() as int,
                        old(self).position() as int,
                    ));
                }
            }
            Ok(())
        }
    }
}

/// `std::io::Error::new(ErrorKind::InvalidInput, ..)`: the error for a path
/// that is too short to name an archive.
#[verifier::external_body]
fn path_too_short() -> std::io::Error {
    std::io::Error::new(std::io::ErrorKind::InvalidInput, "path too short")
}

/// `std::io::Error::new(ErrorKind::NotFound, ..)`: the error for a chain
/// without a first volume.
#[verifier::external_body]
fn missing_first_volume() -> std::io::Error {
    std::io::Error::new(std::io::ErrorKind::NotFound, "can't open: no first volume")
}

} // verus!
