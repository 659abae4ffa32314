//! Typed per-field code layers over the bit streams: a reader and a writer
//! that apply the code each record field was configured with, and a mock
//! writer that only measures lengths.

use vstd::prelude::*;

verus! {

use crate::bit_reader::BufferedBitStreamRead;
use crate::bit_writer::BufferedBitStreamWrite;
use crate::bits::BitOrder;
use crate::comp_flags::Code;
use crate::comp_flags::CompFlags;
use crate::comp_flags::code_bits;
use crate::comp_flags::spec_read_code;
use crate::utils::GraphError;
use vstd::arithmetic::power2::pow2;

/// The integer tag of the unary code, kept stable across the file format
/// tooling.
pub const CODE_UNARY: usize = 0;

/// The integer tag of the γ code.
pub const CODE_GAMMA: usize = 1;

/// The integer tag of the δ code.
pub const CODE_DELTA: usize = 2;

/// The integer tag of the ζ code.
pub const CODE_ZETA: usize = 3;

/// The integer tag of a code.
pub fn code_to_const(code: Code) -> (r: usize)
    ensures
        r == match code {
            Code::Unary => 0int,
            Code::Gamma => 1int,
            Code::Delta => 2int,
            Code::Zeta { k } => 3int,
        },
{
    match code {
        Code::Unary => CODE_UNARY,
        Code::Gamma => CODE_GAMMA,
        Code::Delta => CODE_DELTA,
        Code::Zeta { .. } => CODE_ZETA,
    }
}

/// A reader that applies, for each record field, the code the file was
/// produced with.
pub struct ConstCodesReader {
    /// The underlying code stream.
    code_reader: BufferedBitStreamRead,
    /// The compression parameters the file declares.
    flags: CompFlags,
}

impl ConstCodesReader {
    /// The declared parameters.
    pub closed spec fn flags(&self) -> CompFlags {
        self.flags
    }

    /// The whole logical bit stream.
    pub closed spec fn bits(&self) -> Seq<bool> {
        self.code_reader.bits()
    }

    /// The position of the next unread bit.
    pub closed spec fn pos(&self) -> int {
        self.code_reader.pos()
    }

    /// The bit order of the stream.
    pub closed spec fn order(&self) -> BitOrder {
        self.code_reader.order()
    }

    /// The reader is usable.
    pub closed spec fn wf(&self) -> bool {
        self.code_reader.wf() && self.flags.ok()
    }

    /// Wrap a code stream, refusing parameters the codes cannot honour.
    pub fn new(code_reader: BufferedBitStreamRead, comp_flags: &CompFlags) -> (r: Result<
        Self,
        GraphError,
    >)
        requires
            code_reader.wf(),
        ensures
            comp_flags.ok() ==> (r matches Ok(c) && c.wf() && c.flags() == *comp_flags && c.bits()
                == code_reader.bits() && c.pos() == code_reader.pos() && c.order()
                == code_reader.order()),
            !comp_flags.ok() ==> r == Err::<Self, GraphError>(GraphError::PropertyMismatch),
    {
        if !flags_ok(comp_flags) {
            return Err(GraphError::PropertyMismatch);
        }
        Ok(ConstCodesReader { code_reader, flags: *comp_flags })
    }

    /// Move the cursor to an absolute bit position.
    pub fn set_pos(&mut self, bit_index: usize) -> (r: Result<(), GraphError>)
        requires
            old(self).wf(),
            bit_index <= old(self).bits().len(),
        ensures
            final(self).wf(),
            final(self).flags() == old(self).flags(),
            final(self).order() == old(self).order(),
            final(self).bits() == old(self).bits(),
            r == Ok::<(), GraphError>(()),
            final(self).pos() == bit_index,
    {
        self.code_reader.seek_bit(bit_index)
    }

    /// The declared compression parameters.
    pub fn get_flags(&self) -> (r: CompFlags)
        ensures
            r == self.flags(),
    {
        self.flags
    }

    /// The bit position of the cursor.
    pub fn get_pos(&self) -> (r: usize)
        requires
            self.wf(),
        ensures
            r == self.pos(),
    {
        self.code_reader.get_position()
    }

    /// Read one `outdegree` field.
    pub fn read_outdegree(&mut self) -> (r: Result<u64, GraphError>)
        requires
            old(self).wf(),
        ensures
            final(self).wf(),
            final(self).flags() == old(self).flags(),
            final(self).order() == old(self).order(),
            final(self).bits() == old(self).bits(),
            match spec_read_code(
                old(self).order(),
                old(self).flags().outdegrees,
                old(self).bits(),
                old(self).pos(),
            ) {
                Some((v, p)) => v < pow2(64) && r == Ok::<u64, GraphError>(v as u64)
                    && final(self).pos() == p,
                None => r is Err,
            },
    {
        self.code_reader.read_code(self.flags.outdegrees)
    }

    /// Read one `reference_offset` field.
    pub fn read_reference_offset(&mut self) -> (r: Result<u64, GraphError>)
        requires
            old(self).wf(),
        ensures
            final(self).wf(),
            final(self).flags() == old(self).flags(),
            final(self).order() == old(self).order(),
            final(self).bits() == old(self).bits(),
            match spec_read_code(
                old(self).order(),
                old(self).flags().references,
                old(self).bits(),
                old(self).pos(),
            ) {
                Some((v, p)) => v < pow2(64) && r == Ok::<u64, GraphError>(v as u64)
                    && final(self).pos() == p,
                None => r is Err,
            },
    {
        self.code_reader.read_code(self.flags.references)
    }

    /// Read one `block_count` field.
    pub fn read_block_count(&mut self) -> (r: Result<u64, GraphError>)
        requires
            old(self).wf(),
        ensures
            final(self).wf(),
            final(self).flags() == old(self).flags(),
            final(self).order() == old(self).order(),
            final(self).bits() == old(self).bits(),
            match spec_read_code(
                old(self).order(),
                old(self).flags().blocks,
                old(self).bits(),
                old(self).pos(),
            ) {
                Some((v, p)) => v < pow2(64) && r == Ok::<u64, GraphError>(v as u64)
                    && final(self).pos() == p,
                None => r is Err,
            },
    {
        self.code_reader.read_code(self.flags.blocks)
    }

    /// Read one `blocks` field.
    pub fn read_blocks(&mut self) -> (r: Result<u64, GraphError>)
        requires
            old(self).wf(),
        ensures
            final(self).wf(),
            final(self).flags() == old(self).flags(),
            final(self).order() == old(self).order(),
            final(self).bits() == old(self).bits(),
            match spec_read_code(
                old(self).order(),
                old(self).flags().blocks,
                old(self).bits(),
                old(self).pos(),
            ) {
                Some((v, p)) => v < pow2(64) && r == Ok::<u64, GraphError>(v as u64)
                    && final(self).pos() == p,
                None => r is Err,
            },
    {
        self.code_reader.read_code(self.flags.blocks)
    }

    /// Read one `interval_count` field.
    pub fn read_interval_count(&mut self) -> (r: Result<u64, GraphError>)
        requires
            old(self).wf(),
        ensures
            final(self).wf(),
            final(self).flags() == old(self).flags(),
            final(self).order() == old(self).order(),
            final(self).bits() == old(self).bits(),
            match spec_read_code(
                old(self).order(),
                old(self).flags().intervals,
                old(self).bits(),
                old(self).pos(),
            ) {
                Some((v, p)) => v < pow2(64) && r == Ok::<u64, GraphError>(v as u64)
                    && final(self).pos() == p,
                None => r is Err,
            },
    {
        self.code_reader.read_code(self.flags.intervals)
    }

    /// Read one `interval_start` field.
    pub fn read_interval_start(&mut self) -> (r: Result<u64, GraphError>)
        requires
            old(self).wf(),
        ensures
            final(self).wf(),
            final(self).flags() == old(self).flags(),
            final(self).order() == old(self).order(),
            final(self).bits() == old(self).bits(),
            match spec_read_code(
                old(self).order(),
                old(self).flags().intervals,
                old(self).bits(),
                old(self).pos(),
            ) {
                Some((v, p)) => v < pow2(64) && r == Ok::<u64, GraphError>(v as u64)
                    && final(self).pos() == p,
                None => r is Err,
            },
    {
        self.code_reader.read_code(self.flags.intervals)
    }

    /// Read one `interval_len` field.
    pub fn read_interval_len(&mut self) -> (r: Result<u64, GraphError>)
        requires
            old(self).wf(),
        ensures
            final(self).wf(),
            final(self).flags() == old(self).flags(),
            final(self).order() == old(self).order(),
            final(self).bits() == old(self).bits(),
            match spec_read_code(
                old(self).order(),
                old(self).flags().intervals,
                old(self).bits(),
                old(self).pos(),
            ) {
                Some((v, p)) => v < pow2(64) && r == Ok::<u64, GraphError>(v as u64)
                    && final(self).pos() == p,
                None => r is Err,
            },
    {
        self.code_reader.read_code(self.flags.intervals)
    }

    /// Read one `first_residual` field.
    pub fn read_first_residual(&mut self) -> (r: Result<u64, GraphError>)
        requires
            old(self).wf(),
        ensures
            final(self).wf(),
            final(self).flags() == old(self).flags(),
            final(self).order() == old(self).order(),
            final(self).bits() == old(self).bits(),
            match spec_read_code(
                old(self).order(),
                old(self).flags().residuals,
                old(self).bits(),
                old(self).pos(),
            ) {
                Some((v, p)) => v < pow2(64) && r == Ok::<u64, GraphError>(v as u64)
                    && final(self).pos() == p,
                None => r is Err,
            },
    {
        self.code_reader.read_code(self.flags.residuals)
    }

    /// Read one `residual` field.
    pub fn read_residual(&mut self) -> (r: Result<u64, GraphError>)
        requires
            old(self).wf(),
        ensures
            final(self).wf(),
            final(self).flags() == old(self).flags(),
            final(self).order() == old(self).order(),
            final(self).bits() == old(self).bits(),
            match spec_read_code(
                old(self).order(),
                old(self).flags().residuals,
                old(self).bits(),
                old(self).pos(),
            ) {
                Some((v, p)) => v < pow2(64) && r == Ok::<u64, GraphError>(v as u64)
                    && final(self).pos() == p,
                None => r is Err,
            },
    {
        self.code_reader.read_code(self.flags.residuals)
    }

    /// Skip one `outdegree` field.
    pub fn skip_outdegree(&mut self) -> (r: Result<(), GraphError>)
        requires
            old(self).wf(),
        ensures
            final(self).wf(),
            final(self).flags() == old(self).flags(),
            final(self).order() == old(self).order(),
            final(self).bits() == old(self).bits(),
            match spec_read_code(
                old(self).order(),
                old(self).flags().outdegrees,
                old(self).bits(),
                old(self).pos(),
            ) {
                Some((v, p)) => r == Ok::<(), GraphError>(()) && final(self).pos() == p,
                None => r is Err,
            },
    {
        match self.code_reader.read_code(self.flags.outdegrees) {
            Ok(_) => Ok(()),
            Err(e) => Err(e),
        }
    }

    /// Skip one `reference_offset` field.
    pub fn skip_reference_offset(&mut self) -> (r: Result<(), GraphError>)
        requires
            old(self).wf(),
        ensures
            final(self).wf(),
            final(self).flags() == old(self).flags(),
            final(self).order() == old(self).order(),
            final(self).bits() == old(self).bits(),
            match spec_read_code(
                old(self).order(),
                old(self).flags().references,
                old(self).bits(),
                old(self).pos(),
            ) {
                Some((v, p)) => r == Ok::<(), GraphError>(()) && final(self).pos() == p,
                None => r is Err,
            },
    {
        match self.code_reader.read_code(self.flags.references) {
            Ok(_) => Ok(()),
            Err(e) => Err(e),
        }
    }

    /// Skip one `block_count` field.
    pub fn skip_block_count(&mut self) -> (r: Result<(), GraphError>)
        requires
            old(self).wf(),
        ensures
            final(self).wf(),
            final(self).flags() == old(self).flags(),
            final(self).order() == old(self).order(),
            final(self).bits() == old(self).bits(),
            match spec_read_code(
                old(self).order(),
                old(self).flags().blocks,
                old(self).bits(),
                old(self).pos(),
            ) {
                Some((v, p)) => r == Ok::<(), GraphError>(()) && final(self).pos() == p,
                None => r is Err,
            },
    {
        match self.code_reader.read_code(self.flags.blocks) {
            Ok(_) => Ok(()),
            Err(e) => Err(e),
        }
    }

    /// Skip one `blocks` field.
    pub fn skip_block(&mut self) -> (r: Result<(), GraphError>)
        requires
            old(self).wf(),
        ensures
            final(self).wf(),
            final(self).flags() == old(self).flags(),
            final(self).order() == old(self).order(),
            final(self).bits() == old(self).bits(),
            match spec_read_code(
                old(self).order(),
                old(self).flags().blocks,
                old(self).bits(),
                old(self).pos(),
            ) {
                Some((v, p)) => r == Ok::<(), GraphError>(()) && final(self).pos() == p,
                None => r is Err,
            },
    {
        match self.code_reader.read_code(self.flags.blocks) {
            Ok(_) => Ok(()),
            Err(e) => Err(e),
        }
    }

    /// Skip one `interval_count` field.
    pub fn skip_interval_count(&mut self) -> (r: Result<(), GraphError>)
        requires
            old(self).wf(),
        ensures
            final(self).wf(),
            final(self).flags() == old(self).flags(),
            final(self).order() == old(self).order(),
            final(self).bits() == old(self).bits(),
            match spec_read_code(
                old(self).order(),
                old(self).flags().intervals,
                old(self).bits(),
                old(self).pos(),
            ) {
                Some((v, p)) => r == Ok::<(), GraphError>(()) && final(self).pos() == p,
                None => r is Err,
            },
    {
        match self.code_reader.read_code(self.flags.intervals) {
            Ok(_) => Ok(()),
            Err(e) => Err(e),
        }
    }

    /// Skip one `interval_start` field.
    pub fn skip_interval_start(&mut self) -> (r: Result<(), GraphError>)
        requires
            old(self).wf(),
        ensures
            final(self).wf(),
            final(self).flags() == old(self).flags(),
            final(self).order() == old(self).order(),
            final(self).bits() == old(self).bits(),
            match spec_read_code(
                old(self).order(),
                old(self).flags().intervals,
                old(self).bits(),
                old(self).pos(),
            ) {
                Some((v, p)) => r == Ok::<(), GraphError>(()) && final(self).pos() == p,
                None => r is Err,
            },
    {
        match self.code_reader.read_code(self.flags.intervals) {
            Ok(_) => Ok(()),
            Err(e) => Err(e),
        }
    }

    /// Skip one `interval_len` field.
    pub fn skip_interval_len(&mut self) -> (r: Result<(), GraphError>)
        requires
            old(self).wf(),
        ensures
            final(self).wf(),
            final(self).flags() == old(self).flags(),
            final(self).order() == old(self).order(),
            final(self).bits() == old(self).bits(),
            match spec_read_code(
                old(self).order(),
                old(self).flags().intervals,
                old(self).bits(),
                old(self).pos(),
            ) {
                Some((v, p)) => r == Ok::<(), GraphError>(()) && final(self).pos() == p,
                None => r is Err,
            },
    {
        match self.code_reader.read_code(self.flags.intervals) {
            Ok(_) => Ok(()),
            Err(e) => Err(e),
        }
    }

    /// Skip one `first_residual` field.
    pub fn skip_first_residual(&mut self) -> (r: Result<(), GraphError>)
        requires
            old(self).wf(),
        ensures
            final(self).wf(),
            final(self).flags() == old(self).flags(),
            final(self).order() == old(self).order(),
            final(self).bits() == old(self).bits(),
            match spec_read_code(
                old(self).order(),
                old(self).flags().residuals,
                old(self).bits(),
                old(self).pos(),
            ) {
                Some((v, p)) => r == Ok::<(), GraphError>(()) && final(self).pos() == p,
                None => r is Err,
            },
    {
        match self.code_reader.read_code(self.flags.residuals) {
            Ok(_) => Ok(()),
            Err(e) => Err(e),
        }
    }

    /// Skip one `residual` field.
    pub fn skip_residual(&mut self) -> (r: Result<(), GraphError>)
        requires
            old(self).wf(),
        ensures
            final(self).wf(),
            final(self).flags() == old(self).flags(),
            final(self).order() == old(self).order(),
            final(self).bits() == old(self).bits(),
            match spec_read_code(
                old(self).order(),
                old(self).flags().residuals,
                old(self).bits(),
                old(self).pos(),
            ) {
                Some((v, p)) => r == Ok::<(), GraphError>(()) && final(self).pos() == p,
                None => r is Err,
            },
    {
        match self.code_reader.read_code(self.flags.residuals) {
            Ok(_) => Ok(()),
            Err(e) => Err(e),
        }
    }
}

/// Whether the parameters can be honoured by the codes of this crate.
fn flags_ok(f: &CompFlags) -> (r: bool)
    ensures
        r == f.ok(),
{
    code_ok(f.outdegrees) && code_ok(f.references) && code_ok(f.blocks) && code_ok(f.intervals)
        && code_ok(f.residuals) && f.min_interval_length >= 2
}

/// Whether one code can be honoured.
fn code_ok(c: Code) -> (r: bool)
    ensures
        r == c.ok(),
{
    match c {
        Code::Zeta { k } => 1 <= k && k <= 63,
        _ => true,
    }
}

/// A writer that applies, for each record field, the code the file is being
/// produced with.
pub struct ConstCodesWriter {
    /// The underlying code stream.
    code_writer: BufferedBitStreamWrite,
    /// The compression parameters of the file.
    flags: CompFlags,
}

impl ConstCodesWriter {
    /// The declared parameters.
    pub closed spec fn flags(&self) -> CompFlags {
        self.flags
    }

    /// All bits written so far.
    pub closed spec fn bits(&self) -> Seq<bool> {
        self.code_writer.bits()
    }

    /// The bit order of the stream.
    pub closed spec fn order(&self) -> BitOrder {
        self.code_writer.order()
    }

    /// The writer is usable.
    pub closed spec fn wf(&self) -> bool {
        self.code_writer.wf() && self.flags.ok()
    }

    /// Wrap a code stream, refusing parameters the codes cannot honour.
    pub fn new(code_writer: BufferedBitStreamWrite, comp_flags: &CompFlags) -> (r: Result<
        Self,
        GraphError,
    >)
        requires
            code_writer.wf(),
        ensures
            comp_flags.ok() ==> (r matches Ok(c) && c.wf() && c.flags() == *comp_flags && c.bits()
                == code_writer.bits() && c.order() == code_writer.order()),
            !comp_flags.ok() ==> r == Err::<Self, GraphError>(GraphError::PropertyMismatch),
    {
        if !flags_ok(comp_flags) {
            return Err(GraphError::PropertyMismatch);
        }
        Ok(ConstCodesWriter { code_writer, flags: *comp_flags })
    }

    /// The declared compression parameters.
    pub fn get_flags(&self) -> (r: CompFlags)
        ensures
            r == self.flags(),
    {
        self.flags
    }

    /// The number of bits written so far.
    pub fn written_bits(&self) -> (r: usize)
        requires
            self.wf(),
            self.bits().len() <= usize::MAX,
        ensures
            r == self.bits().len(),
    {
        self.code_writer.written_bits()
    }

    /// A mock writer measuring lengths under the same parameters.
    pub fn mock(&self) -> (r: ConstCodesMockWriter)
        requires
            self.wf(),
        ensures
            r.wf(),
            r.flags() == self.flags(),
    {
        ConstCodesMockWriter { flags: self.flags }
    }

    /// Zero-pad the stream to a word boundary and hand out its words.
    pub fn flush(self) -> (r: Vec<u32>)
        requires
            self.wf(),
        ensures
            ({
                let pad = Seq::new(
                    ((32 - (self.bits().len() % 32)) % 32) as nat,
                    |i: int| false,
                );
                crate::bits::words32_bits(self.order(), r@) == self.bits() + pad
            }),
    {
        let mut w = self.code_writer;
        w.flush();
        w.into_words()
    }

    /// Write one `outdegree` field, returning how many bits it took.
    pub fn write_outdegree(&mut self, value: u64) -> (r: Result<usize, GraphError>)
        requires
            old(self).wf(),
            old(self).flags().outdegrees.writable(value as nat),
            old(self).bits().len() + 256 <= usize::MAX,
            old(self).flags().outdegrees == Code::Unary ==> old(self).bits().len() + value + 1
                <= usize::MAX,
        ensures
            final(self).wf(),
            final(self).flags() == old(self).flags(),
            final(self).order() == old(self).order(),
            final(self).bits() == old(self).bits() + code_bits(
                old(self).order(),
                old(self).flags().outdegrees,
                value as nat,
            ),
            r == Ok::<usize, GraphError>(
                code_bits(old(self).order(), old(self).flags().outdegrees, value as nat).len() as usize,
            ),
    {
        self.code_writer.write_code(self.flags.outdegrees, value)
    }

    /// Write one `reference_offset` field, returning how many bits it took.
    pub fn write_reference_offset(&mut self, value: u64) -> (r: Result<usize, GraphError>)
        requires
            old(self).wf(),
            old(self).flags().references.writable(value as nat),
            old(self).bits().len() + 256 <= usize::MAX,
            old(self).flags().references == Code::Unary ==> old(self).bits().len() + value + 1
                <= usize::MAX,
        ensures
            final(self).wf(),
            final(self).flags() == old(self).flags(),
            final(self).order() == old(self).order(),
            final(self).bits() == old(self).bits() + code_bits(
                old(self).order(),
                old(self).flags().references,
                value as nat,
            ),
            r == Ok::<usize, GraphError>(
                code_bits(old(self).order(), old(self).flags().references, value as nat).len() as usize,
            ),
    {
        self.code_writer.write_code(self.flags.references, value)
    }

    /// Write one `block_count` field, returning how many bits it took.
    pub fn write_block_count(&mut self, value: u64) -> (r: Result<usize, GraphError>)
        requires
            old(self).wf(),
            old(self).flags().blocks.writable(value as nat),
            old(self).bits().len() + 256 <= usize::MAX,
            old(self).flags().blocks == Code::Unary ==> old(self).bits().len() + value + 1
                <= usize::MAX,
        ensures
            final(self).wf(),
            final(self).flags() == old(self).flags(),
            final(self).order() == old(self).order(),
            final(self).bits() == old(self).bits() + code_bits(
                old(self).order(),
                old(self).flags().blocks,
                value as nat,
            ),
            r == Ok::<usize, GraphError>(
                code_bits(old(self).order(), old(self).flags().blocks, value as nat).len() as usize,
            ),
    {
        self.code_writer.write_code(self.flags.blocks, value)
    }

    /// Write one `blocks` field, returning how many bits it took.
    pub fn write_blocks(&mut self, value: u64) -> (r: Result<usize, GraphError>)
        requires
            old(self).wf(),
            old(self).flags().blocks.writable(value as nat),
            old(self).bits().len() + 256 <= usize::MAX,
            old(self).flags().blocks == Code::Unary ==> old(self).bits().len() + value + 1
                <= usize::MAX,
        ensures
            final(self).wf(),
            final(self).flags() == old(self).flags(),
            final(self).order() == old(self).order(),
            final(self).bits() == old(self).bits() + code_bits(
                old(self).order(),
                old(self).flags().blocks,
                value as nat,
            ),
            r == Ok::<usize, GraphError>(
                code_bits(old(self).order(), old(self).flags().blocks, value as nat).len() as usize,
            ),
    {
        self.code_writer.write_code(self.flags.blocks, value)
    }

    /// Write one `interval_count` field, returning how many bits it took.
    pub fn write_interval_count(&mut self, value: u64) -> (r: Result<usize, GraphError>)
        requires
            old(self).wf(),
            old(self).flags().intervals.writable(value as nat),
            old(self).bits().len() + 256 <= usize::MAX,
            old(self).flags().intervals == Code::Unary ==> old(self).bits().len() + value + 1
                <= usize::MAX,
        ensures
            final(self).wf(),
            final(self).flags() == old(self).flags(),
            final(self).order() == old(self).order(),
            final(self).bits() == old(self).bits() + code_bits(
                old(self).order(),
                old(self).flags().intervals,
                value as nat,
            ),
            r == Ok::<usize, GraphError>(
                code_bits(old(self).order(), old(self).flags().intervals, value as nat).len() as usize,
            ),
    {
        self.code_writer.write_code(self.flags.intervals, value)
    }

    /// Write one `interval_start` field, returning how many bits it took.
    pub fn write_interval_start(&mut self, value: u64) -> (r: Result<usize, GraphError>)
        requires
            old(self).wf(),
            old(self).flags().intervals.writable(value as nat),
            old(self).bits().len() + 256 <= usize::MAX,
            old(self).flags().intervals == Code::Unary ==> old(self).bits().len() + value + 1
                <= usize::MAX,
        ensures
            final(self).wf(),
            final(self).flags() == old(self).flags(),
            final(self).order() == old(self).order(),
            final(self).bits() == old(self).bits() + code_bits(
                old(self).order(),
                old(self).flags().intervals,
                value as nat,
            ),
            r == Ok::<usize, GraphError>(
                code_bits(old(self).order(), old(self).flags().intervals, value as nat).len() as usize,
            ),
    {
        self.code_writer.write_code(self.flags.intervals, value)
    }

    /// Write one `interval_len` field, returning how many bits it took.
    pub fn write_interval_len(&mut self, value: u64) -> (r: Result<usize, GraphError>)
        requires
            old(self).wf(),
            old(self).flags().intervals.writable(value as nat),
            old(self).bits().len() + 256 <= usize::MAX,
            old(self).flags().intervals == Code::Unary ==> old(self).bits().len() + value + 1
                <= usize::MAX,
        ensures
            final(self).wf(),
            final(self).flags() == old(self).flags(),
            final(self).order() == old(self).order(),
            final(self).bits() == old(self).bits() + code_bits(
                old(self).order(),
                old(self).flags().intervals,
                value as nat,
            ),
            r == Ok::<usize, GraphError>(
                code_bits(old(self).order(), old(self).flags().intervals, value as nat).len() as usize,
            ),
    {
        self.code_writer.write_code(self.flags.intervals, value)
    }

    /// Write one `first_residual` field, returning how many bits it took.
    pub fn write_first_residual(&mut self, value: u64) -> (r: Result<usize, GraphError>)
        requires
            old(self).wf(),
            old(self).flags().residuals.writable(value as nat),
            old(self).bits().len() + 256 <= usize::MAX,
            old(self).flags().residuals == Code::Unary ==> old(self).bits().len() + value + 1
                <= usize::MAX,
        ensures
            final(self).wf(),
            final(self).flags() == old(self).flags(),
            final(self).order() == old(self).order(),
            final(self).bits() == old(self).bits() + code_bits(
                old(self).order(),
                old(self).flags().residuals,
                value as nat,
            ),
            r == Ok::<usize, GraphError>(
                code_bits(old(self).order(), old(self).flags().residuals, value as nat).len() as usize,
            ),
    {
        self.code_writer.write_code(self.flags.residuals, value)
    }

    /// Write one `residual` field, returning how many bits it took.
    pub fn write_residual(&mut self, value: u64) -> (r: Result<usize, GraphError>)
        requires
            old(self).wf(),
            old(self).flags().residuals.writable(value as nat),
            old(self).bits().len() + 256 <= usize::MAX,
            old(self).flags().residuals == Code::Unary ==> old(self).bits().len() + value + 1
                <= usize::MAX,
        ensures
            final(self).wf(),
            final(self).flags() == old(self).flags(),
            final(self).order() == old(self).order(),
            final(self).bits() == old(self).bits() + code_bits(
                old(self).order(),
                old(self).flags().residuals,
                value as nat,
            ),
            r == Ok::<usize, GraphError>(
                code_bits(old(self).order(), old(self).flags().residuals, value as nat).len() as usize,
            ),
    {
        self.code_writer.write_code(self.flags.residuals, value)
    }
}

/// A writer that emits nothing and only reports how many bits each field
/// would take.
pub struct ConstCodesMockWriter {
    /// The compression parameters measured against.
    flags: CompFlags,
}

impl ConstCodesMockWriter {
    /// The declared parameters.
    pub closed spec fn flags(&self) -> CompFlags {
        self.flags
    }

    /// The mock is usable.
    pub closed spec fn wf(&self) -> bool {
        self.flags.ok()
    }

    /// A mock writer for the given parameters.
    pub fn new(comp_flags: &CompFlags) -> (r: Result<Self, GraphError>)
        ensures
            comp_flags.ok() ==> (r matches Ok(c) && c.wf() && c.flags() == *comp_flags),
            !comp_flags.ok() ==> r == Err::<Self, GraphError>(GraphError::PropertyMismatch),
    {
        if !flags_ok(comp_flags) {
            return Err(GraphError::PropertyMismatch);
        }
        Ok(ConstCodesMockWriter { flags: *comp_flags })
    }

    /// A mock of this mock: itself.
    pub fn mock(&self) -> (r: Self)
        requires
            self.wf(),
        ensures
            r.wf(),
            r.flags() == self.flags(),
    {
        ConstCodesMockWriter { flags: self.flags }
    }

    /// The number of bits a `outdegree` field would take.
    pub fn write_outdegree(&self, value: u64) -> (r: Result<usize, GraphError>)
        requires
            self.wf(),
            self.flags().outdegrees.writable(value as nat),
            self.flags().outdegrees == Code::Unary ==> value < usize::MAX,
        ensures
            r == Ok::<usize, GraphError>(
                code_bits(BitOrder::M2L, self.flags().outdegrees, value as nat).len() as usize,
            ),
            forall|ord: BitOrder| #[trigger] code_bits(ord, self.flags().outdegrees, value as nat).len()
                == code_bits(BitOrder::M2L, self.flags().outdegrees, value as nat).len(),
    {
        mock_len(self.flags.outdegrees, value)
    }

    /// The number of bits a `reference_offset` field would take.
    pub fn write_reference_offset(&self, value: u64) -> (r: Result<usize, GraphError>)
        requires
            self.wf(),
            self.flags().references.writable(value as nat),
            self.flags().references == Code::Unary ==> value < usize::MAX,
        ensures
            r == Ok::<usize, GraphError>(
                code_bits(BitOrder::M2L, self.flags().references, value as nat).len() as usize,
            ),
            forall|ord: BitOrder| #[trigger] code_bits(ord, self.flags().references, value as nat).len()
                == code_bits(BitOrder::M2L, self.flags().references, value as nat).len(),
    {
        mock_len(self.flags.references, value)
    }

    /// The number of bits a `block_count` field would take.
    pub fn write_block_count(&self, value: u64) -> (r: Result<usize, GraphError>)
        requires
            self.wf(),
            self.flags().blocks.writable(value as nat),
            self.flags().blocks == Code::Unary ==> value < usize::MAX,
        ensures
            r == Ok::<usize, GraphError>(
                code_bits(BitOrder::M2L, self.flags().blocks, value as nat).len() as usize,
            ),
            forall|ord: BitOrder| #[trigger] code_bits(ord, self.flags().blocks, value as nat).len()
                == code_bits(BitOrder::M2L, self.flags().blocks, value as nat).len(),
    {
        mock_len(self.flags.blocks, value)
    }

    /// The number of bits a `blocks` field would take.
    pub fn write_blocks(&self, value: u64) -> (r: Result<usize, GraphError>)
        requires
            self.wf(),
            self.flags().blocks.writable(value as nat),
            self.flags().blocks == Code::Unary ==> value < usize::MAX,
        ensures
            r == Ok::<usize, GraphError>(
                code_bits(BitOrder::M2L, self.flags().blocks, value as nat).len() as usize,
            ),
            forall|ord: BitOrder| #[trigger] code_bits(ord, self.flags().blocks, value as nat).len()
                == code_bits(BitOrder::M2L, self.flags().blocks, value as nat).len(),
    {
        mock_len(self.flags.blocks, value)
    }

    /// The number of bits a `interval_count` field would take.
    pub fn write_interval_count(&self, value: u64) -> (r: Result<usize, GraphError>)
        requires
            self.wf(),
            self.flags().intervals.writable(value as nat),
            self.flags().intervals == Code::Unary ==> value < usize::MAX,
        ensures
            r == Ok::<usize, GraphError>(
                code_bits(BitOrder::M2L, self.flags().intervals, value as nat).len() as usize,
            ),
            forall|ord: BitOrder| #[trigger] code_bits(ord, self.flags().intervals, value as nat).len()
                == code_bits(BitOrder::M2L, self.flags().intervals, value as nat).len(),
    {
        mock_len(self.flags.intervals, value)
    }

    /// The number of bits a `interval_start` field would take.
    pub fn write_interval_start(&self, value: u64) -> (r: Result<usize, GraphError>)
        requires
            self.wf(),
            self.flags().intervals.writable(value as nat),
            self.flags().intervals == Code::Unary ==> value < usize::MAX,
        ensures
            r == Ok::<usize, GraphError>(
                code_bits(BitOrder::M2L, self.flags().intervals, value as nat).len() as usize,
            ),
            forall|ord: BitOrder| #[trigger] code_bits(ord, self.flags().intervals, value as nat).len()
                == code_bits(BitOrder::M2L, self.flags().intervals, value as nat).len(),
    {
        mock_len(self.flags.intervals, value)
    }

    /// The number of bits a `interval_len` field would take.
    pub fn write_interval_len(&self, value: u64) -> (r: Result<usize, GraphError>)
        requires
            self.wf(),
            self.flags().intervals.writable(value as nat),
            self.flags().intervals == Code::Unary ==> value < usize::MAX,
        ensures
            r == Ok::<usize, GraphError>(
                code_bits(BitOrder::M2L, self.flags().intervals, value as nat).len() as usize,
            ),
            forall|ord: BitOrder| #[trigger] code_bits(ord, self.flags().intervals, value as nat).len()
                == code_bits(BitOrder::M2L, self.flags().intervals, value as nat).len(),
    {
        mock_len(self.flags.intervals, value)
    }

    /// The number of bits a `first_residual` field would take.
    pub fn write_first_residual(&self, value: u64) -> (r: Result<usize, GraphError>)
        requires
            self.wf(),
            self.flags().residuals.writable(value as nat),
            self.flags().residuals == Code::Unary ==> value < usize::MAX,
        ensures
            r == Ok::<usize, GraphError>(
                code_bits(BitOrder::M2L, self.flags().residuals, value as nat).len() as usize,
            ),
            forall|ord: BitOrder| #[trigger] code_bits(ord, self.flags().residuals, value as nat).len()
                == code_bits(BitOrder::M2L, self.flags().residuals, value as nat).len(),
    {
        mock_len(self.flags.residuals, value)
    }

    /// The number of bits a `residual` field would take.
    pub fn write_residual(&self, value: u64) -> (r: Result<usize, GraphError>)
        requires
            self.wf(),
            self.flags().residuals.writable(value as nat),
            self.flags().residuals == Code::Unary ==> value < usize::MAX,
        ensures
            r == Ok::<usize, GraphError>(
                code_bits(BitOrder::M2L, self.flags().residuals, value as nat).len() as usize,
            ),
            forall|ord: BitOrder| #[trigger] code_bits(ord, self.flags().residuals, value as nat).len()
                == code_bits(BitOrder::M2L, self.flags().residuals, value as nat).len(),
    {
        mock_len(self.flags.residuals, value)
    }
}

/// The number of bits `value` takes under the chosen code, the same under
/// either bit order.
pub fn mock_len(c: Code, value: u64) -> (r: Result<usize, GraphError>)
    requires
        c.ok(),
        c.writable(value as nat),
        c == Code::Unary ==> value < usize::MAX,
    ensures
        r == Ok::<usize, GraphError>(code_bits(BitOrder::M2L, c, value as nat).len() as usize),
        forall|ord: BitOrder| #[trigger] code_bits(ord, c, value as nat).len() == code_bits(
            BitOrder::M2L,
            c,
            value as nat,
        ).len(),
{
    proof {
        reveal(crate::comp_flags::code_bits);
        vstd::arithmetic::power2::lemma_pow2_strictly_increases(62, 63);
        vstd::arithmetic::power2::lemma_pow2_strictly_increases(63, 64);
        vstd::arithmetic::power2::lemma2_to64_rest();
    }
    match c {
        Code::Unary => Ok(crate::codes::len_unary(value)),
        Code::Gamma => Ok(crate::codes::len_gamma(value)),
        Code::Delta => Ok(crate::codes::len_delta(value)),
        Code::Zeta { k } => Ok(crate::codes::len_zeta(value, k)),
    }
}

} // verus!
