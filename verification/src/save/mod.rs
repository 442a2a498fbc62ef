//! The save-file codec: decoding a whole save file into a `SaveInfo` and
//! encoding a `SaveInfo` back into bytes.

use vstd::prelude::*;
use vstd::utf8::*;
use vstd::string::{StrSliceExecFns, StringExecFns};

pub mod format;
pub mod version;
pub mod internal;
pub mod items;
pub mod text;

use crate::save::format::{
    step_ok, step_view_ok, parse_u8, parse_boolean, parse_i32, parse_u64, parse_len_string,
    parse_save, ser_u8, ser_boolean, ser_i32, ser_u64, ser_len_string, ser_slots, ser_save,
    fits_len_string, slot_enc_err, save_enc_err, lemma_ser_slots_snoc, lemma_slot_enc_err_none,
    lemma_slots_enc_err_first, lemma_slots_enc_err_none, SaveInfoView, SaveSlotView,
};

verus! {

/// Everything that can go wrong while decoding or encoding a save.
///
/// The decode errors: `Truncated` when the stream ends inside a field,
/// `InvalidText` when a string field is not well-formed UTF-8,
/// `MalformedLength` when a count field is negative or larger than the
/// remaining stream, and `BadVersionString` when the version header is not
/// four dot-separated unsigned integers. The one encode error is
/// `StringTooLong`: a string whose UTF-8 encoding exceeds the 255-byte cap
/// of the one-byte length prefix.
#[derive(Clone, Copy, Debug, PartialEq, Eq, Structural)]
pub enum Error {
    Truncated,
    InvalidText,
    MalformedLength,
    BadVersionString,
    StringTooLong,
}

/// Main save structure that decodes a save file from its bytes. The bytes
/// are consumed logically by `load_campaign`, which can run only once.
#[derive(Debug)]
pub struct Save {
    data: Vec<u8>,
    done: bool,
}

/// Structure containing decoded save data: the product version (empty
/// when the file carried no version header) and the three slot positions.
#[derive(Debug)]
pub struct SaveInfo {
    pub product_version: String,
    pub save_slots: Vec<Option<crate::save::internal::SaveSlot>>,
}

impl View for SaveInfo {
    type V = SaveInfoView;

    open spec fn view(&self) -> SaveInfoView {
        SaveInfoView {
            product_version: self.product_version@,
            save_slots: self.save_slots@.map_values(
                |o: Option<crate::save::internal::SaveSlot>| crate::save::internal::slot_opt_view(
                    o,
                ),
            ),
        }
    }
}

impl Save {
    /// The bytes this save was opened over.
    pub closed spec fn bytes(&self) -> Seq<u8> {
        self.data@
    }

    /// Whether `load_campaign` has already run.
    pub closed spec fn consumed(&self) -> bool {
        self.done
    }

    /// Wrap the bytes of a save file. No decoding happens yet.
    pub fn new(data: Vec<u8>) -> (s: Save)
        ensures
            s.bytes() == data@,
            !s.consumed(),
    {
        Save { data, done: false }
    }

    /// Decode the whole file: the optional version header, then exactly
    /// three slot positions. The result is precisely what the spec parser
    /// of `format` reads from the bytes; any trailing bytes are ignored.
    /// A save can be loaded only once.
    pub fn load_campaign(&mut self) -> (r: Result<SaveInfo, Error>)
        requires
            !old(self).consumed(),
        ensures
            final(self).bytes() == old(self).bytes(),
            final(self).consumed(),
            (match r {
                Ok(info) => parse_save(old(self).bytes()) is Ok && info@ == parse_save(
                    old(self).bytes(),
                ).unwrap().0,
                Err(e) => parse_save(old(self).bytes()) == Err::<(SaveInfoView, int), Error>(e),
            }),
    {
        self.done = true;
        proof {
            assert(self.data@.skip(0) =~= self.data@);
        }
        let (first, _after) = match read_u8(&self.data, 0) {
            Ok(v) => v,
            Err(e) => {
                return Err(e);
            },
        };
        let mut version: String = String::new();
        let mut version_num: u64 = 0;
        let mut pos: usize = 0;
        if first == 0xFF {
            let (vs, p1) = match read_len_string(&self.data, 1) {
                Ok(v) => v,
                Err(e) => {
                    return Err(e);
                },
            };
            version_num = match crate::save::version::parse_version_num(vs.as_str()) {
                Ok(v) => v,
                Err(e) => {
                    return Err(e);
                },
            };
            version = vs;
            pos = p1;
            proof {
                assert(self.data@.skip(1).skip(pos - 1) =~= self.data@.skip(pos as int));
            }
        }
        let (save_slots, _end) = match crate::save::internal::read_slots(
            &self.data,
            pos,
            3,
            version_num,
        ) {
            Ok(v) => v,
            Err(e) => {
                return Err(e);
            },
        };
        Ok(SaveInfo { product_version: version, save_slots })
    }
}

impl SaveInfo {
    /// Encode the whole model into the bytes of a save file, always in the
    /// current layout and always with a version header. Fails, writing
    /// nothing, on a model whose strings or collections do not fit the
    /// format's length fields, or one without exactly three slot positions.
    pub fn encode(&self) -> (r: Result<Vec<u8>, Error>)
        ensures
            (match save_enc_err(self@) {
                None => r is Ok && r.unwrap()@ == ser_save(self@),
                Some(e) => r == Err::<Vec<u8>, Error>(e),
            }),
    {
        let mut out: Vec<u8> = Vec::new();
        if self.save_slots.len() != 3 {
            return Err(Error::MalformedLength);
        }
        write_u8(&mut out, 0xFF);
        match write_len_string(&mut out, self.product_version.as_str()) {
            Ok(()) => (),
            Err(e) => {
                return Err(e);
            },
        }
        let ghost head: Seq<u8> = out@;
        let ghost slot_views = self@.save_slots;
        let mut i: usize = 0;
        while i < 3
            invariant
                i <= 3,
                self.save_slots@.len() == 3,
                slot_views == self@.save_slots,
                slot_views.len() == 3,
                fits_len_string(self@.product_version),
                out@ == head + ser_slots(slot_views.take(i as int)),
                forall|j: int|
                    0 <= j < i && (#[trigger] slot_views[j]) is Some ==> slot_enc_err(
                        slot_views[j].unwrap(),
                    ) is None,
            decreases 3 - i,
        {
            proof {
                assert(slot_views[i as int] == crate::save::internal::slot_opt_view(
                    self.save_slots@[i as int],
                ));
            }
            match &self.save_slots[i] {
                None => {
                    write_boolean(&mut out, false);
                    proof {
                        lemma_ser_slots_snoc(slot_views, i as int);
                        assert(out@ =~= head + ser_slots(slot_views.take(i + 1)));
                    }
                },
                Some(slot) => {
                    write_boolean(&mut out, true);
                    match slot.write(&mut out) {
                        Ok(()) => (),
                        Err(e) => {
                            proof {
                                lemma_slots_enc_err_first(slot_views, i as int, e);
                            }
                            return Err(e);
                        },
                    }
                    proof {
                        lemma_ser_slots_snoc(slot_views, i as int);
                        assert(out@ =~= head + ser_slots(slot_views.take(i + 1)));
                    }
                },
            }
            i = i + 1;
        }
        proof {
            assert(slot_views.take(3) =~= slot_views);
            assert forall|j: int|
                0 <= j < slot_views.len() && (#[trigger] slot_views[j])
                    is Some implies slot_views[j].unwrap().wf() by {
                lemma_slot_enc_err_none(slot_views[j].unwrap());
            }
            lemma_slots_enc_err_none(slot_views);
            assert(out@ =~= ser_save(self@));
        }
        Ok(out)
    }
}

/// The report of a whole save: one banner and one slot report per present
/// slot, the present slots numbered from `next` up in order.
pub open spec fn spec_save_report(slots: Seq<Option<SaveSlotView>>, next: nat) -> Seq<char>
    decreases slots.len(),
{
    if slots.len() == 0 {
        Seq::empty()
    } else {
        match slots[0] {
            None => spec_save_report(slots.skip(1), next),
            Some(s) => "Save Slot "@ + crate::save::text::dec_str(next) + " ============\n"@
                + crate::save::internal::spec_slot_report(s) + "\n"@ + spec_save_report(
                slots.skip(1),
                next + 1,
            ),
        }
    }
}

impl SaveInfo {
    /// The report the editor shows for a whole save, as the text it
    /// prints: the present slots in order, numbered from one.
    pub fn report(&self) -> (r: String)
        requires
            self.save_slots@.len() <= 3,
        ensures
            r@ == spec_save_report(self@.save_slots, 1),
    {
        let ghost slot_views = self@.save_slots;
        let mut r = String::new();
        let mut next: usize = 1;
        let mut i: usize = 0;
        proof {
            assert(slot_views.skip(0) =~= slot_views);
            assert(r@ + spec_save_report(slot_views, 1) =~= spec_save_report(slot_views, 1));
        }
        while i < self.save_slots.len()
            invariant
                i <= self.save_slots@.len() <= 3,
                1 <= next <= 1 + i,
                slot_views == self@.save_slots,
                spec_save_report(slot_views, 1) == r@ + spec_save_report(
                    slot_views.skip(i as int),
                    next as nat,
                ),
            decreases self.save_slots@.len() - i,
        {
            proof {
                assert(slot_views[i as int] == crate::save::internal::slot_opt_view(
                    self.save_slots@[i as int],
                ));
                assert(slot_views.skip(i as int)[0] == slot_views[i as int]);
                assert(slot_views.skip(i as int).skip(1) =~= slot_views.skip(i + 1));
            }
            match &self.save_slots[i] {
                None => (),
                Some(slot) => {
                    let ghost before: Seq<char> = r@;
                    r.append("Save Slot ");
                    let number_text = crate::save::text::u64_to_string(next as u64);
                    r.append(number_text.as_str());
                    r.append(" ============\n");
                    let slot_text = slot.report();
                    r.append(slot_text.as_str());
                    r.append("\n");
                    next = next + 1;
                    proof {
                        assert(r@ =~= before + ("Save Slot "@ + crate::save::text::dec_str(
                            (next - 1) as nat,
                        ) + " ============\n"@ + crate::save::internal::spec_slot_report(slot@)
                            + "\n"@));
                    }
                },
            }
            i = i + 1;
        }
        proof {
            assert(slot_views.skip(self.save_slots@.len() as int) =~= Seq::<
                Option<crate::save::format::SaveSlotView>,
            >::empty());
            assert(r@ + Seq::<char>::empty() =~= r@);
        }
        r
    }
}

/// The name of the backup written before a save overwrites an existing
/// file: the original path, the moment in Unix milliseconds, and a `bak`
/// suffix.
pub fn backup_name(path: &str, millis: u64) -> (r: String)
    ensures
        r@ == path@ + "."@ + crate::save::text::dec_str(millis as nat) + ".bak"@,
{
    let mut r = String::from_str(path);
    r.append(".");
    let stamp = crate::save::text::u64_to_string(millis);
    r.append(stamp.as_str());
    r.append(".bak");
    r
}

// ---------------------------------------------------------------------------
// Primitive readers. Each reads one field of `data` starting at `pos` and
// returns the value with the position just past it, exactly as the spec
// parser of `format` describes.
// ---------------------------------------------------------------------------

pub fn read_u8(data: &Vec<u8>, pos: usize) -> (r: Result<(u8, usize), Error>)
    requires
        pos <= data@.len(),
    ensures
        step_ok(pos as int, data@.len() as int, r, parse_u8(data@.skip(pos as int))),
{
    if pos < data.len() {
        Ok((data[pos], pos + 1))
    } else {
        Err(Error::Truncated)
    }
}

/// Read one byte as a boolean: zero is false, any other value is true.
pub fn read_boolean(data: &Vec<u8>, pos: usize) -> (r: Result<(bool, usize), Error>)
    requires
        pos <= data@.len(),
    ensures
        step_ok(pos as int, data@.len() as int, r, parse_boolean(data@.skip(pos as int))),
{
    match read_u8(data, pos) {
        Ok((byte, end)) => Ok((byte != 0, end)),
        Err(e) => Err(e),
    }
}

pub fn read_i32(data: &Vec<u8>, pos: usize) -> (r: Result<(i32, usize), Error>)
    requires
        pos <= data@.len(),
    ensures
        step_ok(pos as int, data@.len() as int, r, parse_i32(data@.skip(pos as int))),
{
    if data.len() - pos >= 4 {
        let mut buf: Vec<u8> = Vec::new();
        buf.push(data[pos]);
        buf.push(data[pos + 1]);
        buf.push(data[pos + 2]);
        buf.push(data[pos + 3]);
        proof {
            assert(buf@ =~= data@.skip(pos as int).subrange(0, 4));
        }
        let word = vstd::bytes::u32_from_le_bytes(buf.as_slice());
        let v: i32 = #[verifier::truncate] (word as i32);
        Ok((v, pos + 4))
    } else {
        Err(Error::Truncated)
    }
}

pub fn read_u64(data: &Vec<u8>, pos: usize) -> (r: Result<(u64, usize), Error>)
    requires
        pos <= data@.len(),
    ensures
        step_ok(pos as int, data@.len() as int, r, parse_u64(data@.skip(pos as int))),
{
    if data.len() - pos >= 8 {
        let mut buf: Vec<u8> = Vec::new();
        let mut i: usize = 0;
        while i < 8
            invariant
                i <= 8,
                pos + 8 <= data@.len(),
                data@.len() <= usize::MAX,
                buf@ =~= data@.subrange(pos as int, pos + i),
            decreases 8 - i,
        {
            buf.push(data[pos + i]);
            i = i + 1;
        }
        proof {
            assert(buf@ =~= data@.skip(pos as int).subrange(0, 8));
        }
        let v = vstd::bytes::u64_from_le_bytes(buf.as_slice());
        Ok((v, pos + 8))
    } else {
        Err(Error::Truncated)
    }
}

/// Relies on `std::str::from_utf8`: it accepts exactly the byte sequences
/// that are well-formed UTF-8, and yields the characters those bytes encode.
#[verifier::external_body]
fn utf8_to_string(bytes: &Vec<u8>) -> (r: Option<String>)
    ensures
        r is Some <==> valid_utf8(bytes@),
        r is Some ==> r.unwrap()@ == decode_utf8(bytes@),
{
    match std::str::from_utf8(bytes.as_slice()) {
        Ok(s) => Some(s.to_owned()),
        Err(_) => None,
    }
}

/// Read a string prefixed with one byte holding its length in bytes.
pub fn read_len_string(data: &Vec<u8>, pos: usize) -> (r: Result<(String, usize), Error>)
    requires
        pos <= data@.len(),
    ensures
        step_view_ok(pos as int, data@.len() as int, r, parse_len_string(data@.skip(pos as int))),
{
    let (n, p1) = match read_u8(data, pos) {
        Ok(v) => v,
        Err(e) => {
            return Err(e);
        },
    };
    let count = n as usize;
    if data.len() - p1 < count {
        return Err(Error::Truncated);
    }
    let mut bytes: Vec<u8> = Vec::new();
    let mut i: usize = 0;
    while i < count
        invariant
            i <= count,
            p1 + count <= data@.len(),
            data@.len() <= usize::MAX,
            bytes@ =~= data@.subrange(p1 as int, p1 + i),
        decreases count - i,
    {
        bytes.push(data[p1 + i]);
        i = i + 1;
    }
    proof {
        assert(bytes@ =~= data@.skip(pos as int).subrange(1, 1 + n));
    }
    match utf8_to_string(&bytes) {
        Some(s) => Ok((s, p1 + count)),
        None => Err(Error::InvalidText),
    }
}

// ---------------------------------------------------------------------------
// Primitive writers. Each appends exactly the serialized form of its value.
// ---------------------------------------------------------------------------

pub fn write_u8(out: &mut Vec<u8>, v: u8)
    ensures
        final(out)@ == old(out)@ + ser_u8(v),
{
    out.push(v);
    proof {
        assert(out@ =~= old(out)@ + ser_u8(v));
    }
}

/// Write a boolean as its canonical byte: 1 for true, 0 for false.
pub fn write_boolean(out: &mut Vec<u8>, v: bool)
    ensures
        final(out)@ == old(out)@ + ser_boolean(v),
{
    out.push(if v { 1 } else { 0 });
    proof {
        assert(out@ =~= old(out)@ + ser_boolean(v));
    }
}

pub fn write_i32(out: &mut Vec<u8>, v: i32)
    ensures
        final(out)@ == old(out)@ + ser_i32(v),
{
    let word: u32 = #[verifier::truncate] (v as u32);
    let mut bytes = vstd::bytes::u32_to_le_bytes(word);
    out.append(&mut bytes);
}

pub fn write_u64(out: &mut Vec<u8>, v: u64)
    ensures
        final(out)@ == old(out)@ + ser_u64(v),
{
    let mut bytes = vstd::bytes::u64_to_le_bytes(v);
    out.append(&mut bytes);
}

/// Write a string as its one-byte length followed by its UTF-8 bytes.
/// A string longer than 255 bytes does not fit the length prefix and is
/// rejected whole: nothing is written and nothing is truncated.
pub fn write_len_string(out: &mut Vec<u8>, s: &str) -> (r: Result<(), Error>)
    ensures
        fits_len_string(s@) ==> r == Ok::<(), Error>(()) && final(out)@ == old(out)@ + ser_len_string(s@),
        !fits_len_string(s@) ==> r == Err::<(), Error>(Error::StringTooLong) && final(out)@ == old(out)@,
{
    let mut bytes = s.as_bytes_vec();
    let n = bytes.len();
    if n > 255 {
        return Err(Error::StringTooLong);
    }
    out.push(n as u8);
    out.append(&mut bytes);
    proof {
        assert(out@ =~= old(out)@ + ser_len_string(s@));
    }
    Ok(())
}

} // verus!
