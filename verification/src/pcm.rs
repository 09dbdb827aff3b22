//! The shape of interleaved audio buffers.

use vstd::prelude::*;

use crate::text::{append_decimal, decimal};

verus! {

/// Why an array is no interleaved audio buffer.
#[derive(Debug, Clone, Copy, PartialEq, Eq, Structural)]
pub enum ShapeError {
    /// The columns of a two-dimensional array are not the channels of the codec.
    ColumnMismatch { columns: usize, channels: usize },
    /// The array has neither one nor two dimensions.
    Dimensions,
    /// The samples do not make up whole frames.
    PartialFrame,
}

impl ShapeError {
    /// The message shown to users.
    pub open spec fn text(self) -> Seq<char> {
        match self {
            ShapeError::ColumnMismatch { columns, channels } => "array has "@ + decimal(
                columns as nat,
            ) + " columns but the codec is configured for "@ + decimal(channels as nat)
                + " channels"@,
            ShapeError::Dimensions
                => "PCM must be a 1-D interleaved array or a 2-D (frames, channels) array"@,
            ShapeError::PartialFrame
                => "PCM length must be a whole number of frames for the channel count"@,
        }
    }

    /// The message shown to users.
    #[must_use]
    pub fn message(&self) -> (text: String)
        ensures
            text@ == self.text(),
    {
        match self {
            ShapeError::ColumnMismatch { columns, channels } => {
                let mut text = String::from_str("array has ");
                append_decimal(&mut text, *columns as u64);
                text.append(" columns but the codec is configured for ");
                append_decimal(&mut text, *channels as u64);
                text.append(" channels");
                text
            },
            ShapeError::Dimensions => String::from_str(
                "PCM must be a 1-D interleaved array or a 2-D (frames, channels) array",
            ),
            ShapeError::PartialFrame => String::from_str(
                "PCM length must be a whole number of frames for the channel count",
            ),
        }
    }
}

/// The number of samples in an array of that shape, or why it is no buffer of
/// interleaved frames.
pub open spec fn samples_of(shape: Seq<usize>, channels: int) -> Result<int, ShapeError> {
    if shape.len() == 1 {
        whole_frames(shape[0] as int, channels)
    } else if shape.len() == 2 {
        if shape[1] != channels {
            Err(ShapeError::ColumnMismatch { columns: shape[1], channels: channels as usize })
        } else {
            whole_frames(shape[0] * shape[1], channels)
        }
    } else {
        Err(ShapeError::Dimensions)
    }
}

/// That many samples, if they make up whole frames.
pub open spec fn whole_frames(total: int, channels: int) -> Result<int, ShapeError> {
    if channels == 0 || total % channels != 0 {
        Err(ShapeError::PartialFrame)
    } else {
        Ok(total)
    }
}

/// Checks the shape of an array of samples: one dimension, interleaved, or two,
/// frames by channels. Returns the number of samples.
///
/// # Errors
///
/// The [`ShapeError`] that says why it is no buffer.
pub fn check_shape(shape: &[usize], channels: usize) -> (res: Result<usize, ShapeError>)
    requires
        shape@.len() == 2 && shape@[1] == channels ==> shape@[0] * shape@[1] <= usize::MAX,
    ensures
        match res {
            Ok(total) => samples_of(shape@, channels as int) == Ok::<int, ShapeError>(total as int),
            Err(e) => samples_of(shape@, channels as int) == Err::<int, ShapeError>(e),
        },
{
    let n = shape.len();
    let total = if n == 1 {
        shape[0]
    } else if n == 2 {
        let columns = shape[1];
        if columns != channels {
            return Err(ShapeError::ColumnMismatch { columns, channels });
        }
        shape[0] * columns
    } else {
        return Err(ShapeError::Dimensions);
    };
    if channels == 0 || total % channels != 0 {
        return Err(ShapeError::PartialFrame);
    }
    Ok(total)
}

/// The number of whole frames in `len` interleaved samples.
#[must_use]
pub fn frames_in(len: usize, channels: usize) -> (frames: usize)
    requires
        channels != 0,
    ensures
        frames == len as int / channels as int,
{
    len / channels
}

/// A buffer has as many samples as its array has elements, in whole frames. One
/// dimension must hold whole frames; of two, the second must be the channels;
/// and no other number of dimensions will do.
pub proof fn law_shapes(shape: Seq<usize>, channels: int, frames: int)
    requires
        1 <= channels <= usize::MAX,
    ensures
        samples_of(shape, channels) matches Ok(total) ==> {
            &&& shape.len() == 1 || shape.len() == 2
            &&& shape.len() == 1 ==> total == shape[0]
            &&& shape.len() == 2 ==> total == shape[0] * shape[1] && shape[1] == channels
            &&& total % channels == 0
        },
        shape.len() == 1 && shape[0] == frames * channels ==> samples_of(shape, channels) == Ok::<
            int,
            ShapeError,
        >(frames * channels),
        shape.len() == 2 && shape[0] == frames && shape[1] == channels ==> samples_of(
            shape,
            channels,
        ) == Ok::<int, ShapeError>(frames * channels),
        shape.len() == 2 && shape[1] != channels ==> (samples_of(shape, channels) matches Err(e)
            && e == (ShapeError::ColumnMismatch { columns: shape[1], channels: channels as usize })),
        shape.len() != 1 && shape.len() != 2 ==> (samples_of(shape, channels) matches Err(e)
            && e is Dimensions),
{
    vstd::arithmetic::div_mod::lemma_mod_multiples_basic(frames, channels);
}

} // verus!
