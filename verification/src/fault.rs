//! Why a file cannot be rebuilt.

use vstd::prelude::*;

verus! {

/// What stops a rebuild.
#[derive(Clone, Copy, Debug, PartialEq, Eq, Structural)]
pub enum Fault {
    /// There is no media data box.
    NoMediaData,
    /// The media data box holds next to nothing.
    NoUsefulData,
    /// No user data that x264 signs was found in the media data.
    NoEncoderData,
    /// The user data holds no x264 options.
    NoOptions,
    /// Interlaced video, custom quantiser matrices or open groups of pictures.
    UnsupportedCoding,
    /// More than one slice per frame.
    UnsupportedSlices,
    /// Too few frames, or none that decoding can start at.
    NoFrames,
    /// No frame size made the stream decode.
    NoGeometry,
    /// A slice header ends before the picture order count.
    NoOrder,
    /// A time or a size that its 32-bit field cannot hold.
    TooLong,
    /// A sample rate that AAC has no index for.
    BadSampleRate,
    /// More audio than one 32-bit box holds.
    AudioTooLarge,
    /// The repaired file holds nothing.
    EmptyOutput,
}

impl Fault {
    /// What the user is told.
    pub open spec fn text(self) -> Seq<char> {
        match self {
            Fault::NoMediaData => "El archivo no tiene datos de video (mdat)."@,
            Fault::NoUsefulData => "El archivo esta vacio o sin datos utiles."@,
            Fault::NoEncoderData => "Solo se pueden reconstruir videos codificados con x264 (no se encontro su firma)."@,
            Fault::NoOptions => "Solo se pueden reconstruir videos codificados con x264 (no se encontro su firma en el archivo)."@,
            Fault::UnsupportedCoding => "Video entrelazado, con matrices CQM u open-GOP: no soportado."@,
            Fault::UnsupportedSlices => "Video con varios slices por frame: no soportado."@,
            Fault::NoFrames => "No se encontraron frames de video recuperables."@,
            Fault::NoGeometry => "No se pudo deducir el tamano ni la profundidad de color del video."@,
            Fault::NoOrder => "No se pudo leer el orden de los frames (slice header)."@,
            Fault::TooLong => "El video es demasiado largo para su indice."@,
            Fault::BadSampleRate => "frecuencia de audio invalida"@,
            Fault::AudioTooLarge => "Audio demasiado grande para reconstruir."@,
            Fault::EmptyOutput => "El archivo reparado quedo vacio. Los datos originales pueden faltar."@,
        }
    }

    /// What the user is told.
    pub fn message(self) -> (r: &'static str)
        ensures
            r@ == self.text(),
    {
        match self {
            Fault::NoMediaData => "El archivo no tiene datos de video (mdat).",
            Fault::NoUsefulData => "El archivo esta vacio o sin datos utiles.",
            Fault::NoEncoderData => "Solo se pueden reconstruir videos codificados con x264 (no se encontro su firma).",
            Fault::NoOptions => "Solo se pueden reconstruir videos codificados con x264 (no se encontro su firma en el archivo).",
            Fault::UnsupportedCoding => "Video entrelazado, con matrices CQM u open-GOP: no soportado.",
            Fault::UnsupportedSlices => "Video con varios slices por frame: no soportado.",
            Fault::NoFrames => "No se encontraron frames de video recuperables.",
            Fault::NoGeometry => "No se pudo deducir el tamano ni la profundidad de color del video.",
            Fault::NoOrder => "No se pudo leer el orden de los frames (slice header).",
            Fault::TooLong => "El video es demasiado largo para su indice.",
            Fault::BadSampleRate => "frecuencia de audio invalida",
            Fault::AudioTooLarge => "Audio demasiado grande para reconstruir.",
            Fault::EmptyOutput => "El archivo reparado quedo vacio. Los datos originales pueden faltar.",
        }
    }
}

} // verus!
