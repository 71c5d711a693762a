use vstd::prelude::*;
use vstd::string::*;

verus! {

/// Errors that can occur during FFT computation.
#[derive(Debug, Clone, Copy, PartialEq, Eq, Structural)]
pub enum FftError {
    /// Input length is not a power of two (radix-2).
    NotPowerOfTwo(usize),
    /// Input is empty.
    Empty,
    /// Input and output buffer lengths do not match.
    LengthMismatch {
        /// Length of the input buffer.
        input: usize,
        /// Length of the output buffer.
        output: usize,
    },
    /// Buffer length does not match the length an FFT plan was made for.
    WrongLength {
        /// Length of the buffer handed in.
        actual: usize,
        /// Length the plan was made for.
        planned: usize,
    },
}

/// Errors returned by filter design functions.
#[derive(Debug, Clone, Copy, PartialEq, Eq, Structural)]
pub enum DesignError {
    /// Cutoff or centre frequency is zero, negative, or at or above Nyquist.
    FrequencyOutOfRange,
    /// Sample rate is zero or negative.
    SampleRateOutOfRange,
    /// Quality factor Q is zero or negative.
    QOutOfRange,
    /// Filter order is odd or outside the supported range.
    OrderOutOfRange,
    /// Passband ripple or stopband attenuation is zero or negative.
    RippleOutOfRange,
}

/// Errors returned when computing a filter's frequency response.
#[derive(Debug, Clone, Copy, PartialEq, Eq, Structural)]
pub enum FilterError {
    /// The filter has no taps or coefficients.
    Empty,
    /// A parameter is out of the valid range (e.g. zero sample rate).
    InvalidParameter,
}

/// The character of decimal digit `d` (for `d < 10`).
pub open spec fn digit_char(d: nat) -> char {
    if d == 0 {
        '0'
    } else if d == 1 {
        '1'
    } else if d == 2 {
        '2'
    } else if d == 3 {
        '3'
    } else if d == 4 {
        '4'
    } else if d == 5 {
        '5'
    } else if d == 6 {
        '6'
    } else if d == 7 {
        '7'
    } else if d == 8 {
        '8'
    } else {
        '9'
    }
}

/// The decimal notation of `n`, without leading zeros.
pub open spec fn decimal(n: nat) -> Seq<char>
    decreases n,
{
    if n < 10 {
        seq![digit_char(n)]
    } else {
        decimal(n / 10).push(digit_char(n % 10))
    }
}

fn digit_str(d: usize) -> (s: &'static str)
    requires
        d < 10,
    ensures
        s@ == seq![digit_char(d as nat)],
{
    proof {
        reveal_strlit("0");
        reveal_strlit("1");
        reveal_strlit("2");
        reveal_strlit("3");
        reveal_strlit("4");
        reveal_strlit("5");
        reveal_strlit("6");
        reveal_strlit("7");
        reveal_strlit("8");
        reveal_strlit("9");
    }
    match d {
        0 => "0",
        1 => "1",
        2 => "2",
        3 => "3",
        4 => "4",
        5 => "5",
        6 => "6",
        7 => "7",
        8 => "8",
        _ => "9",
    }
}

/// Appends the decimal notation of `n` to `s`.
fn append_decimal(s: &mut String, n: usize)
    ensures
        final(s)@ == old(s)@ + decimal(n as nat),
    decreases n,
{
    if n >= 10 {
        append_decimal(s, n / 10);
    }
    s.append(digit_str(n % 10));
    proof {
        if n < 10 {
            assert(n % 10 == n);
        }
    }
}

/// The message text of an FFT error.
pub open spec fn fft_error_text(e: FftError) -> Seq<char> {
    match e {
        FftError::NotPowerOfTwo(n) => "FFT length "@ + decimal(n as nat) + " is not a power of two"@,
        FftError::Empty => "FFT input is empty"@,
        FftError::LengthMismatch { input, output } => "buffer length mismatch: input "@
            + decimal(input as nat) + ", output "@ + decimal(output as nat),
        FftError::WrongLength { actual, planned } => "buffer length "@ + decimal(actual as nat)
            + " does not match planned FFT length "@ + decimal(planned as nat),
    }
}

/// The message text of a design error.
pub open spec fn design_error_text(e: DesignError) -> Seq<char> {
    match e {
        DesignError::FrequencyOutOfRange => "frequency out of range"@,
        DesignError::SampleRateOutOfRange => "sample rate out of range"@,
        DesignError::QOutOfRange => "Q factor out of range"@,
        DesignError::OrderOutOfRange => "filter order out of range"@,
        DesignError::RippleOutOfRange => "ripple or stopband attenuation out of range"@,
    }
}

/// The message text of a frequency-response error.
pub open spec fn filter_error_text(e: FilterError) -> Seq<char> {
    match e {
        FilterError::Empty => "filter is empty"@,
        FilterError::InvalidParameter => "invalid parameter"@,
    }
}

impl FftError {
    /// Human-readable description of the error.
    pub fn message(&self) -> (s: String)
        ensures
            s@ == fft_error_text(*self),
    {
        match self {
            FftError::NotPowerOfTwo(n) => {
                let mut s = String::from_str("FFT length ");
                append_decimal(&mut s, *n);
                s.append(" is not a power of two");
                s
            },
            FftError::Empty => String::from_str("FFT input is empty"),
            FftError::LengthMismatch { input, output } => {
                let mut s = String::from_str("buffer length mismatch: input ");
                append_decimal(&mut s, *input);
                s.append(", output ");
                append_decimal(&mut s, *output);
                s
            },
            FftError::WrongLength { actual, planned } => {
                let mut s = String::from_str("buffer length ");
                append_decimal(&mut s, *actual);
                s.append(" does not match planned FFT length ");
                append_decimal(&mut s, *planned);
                s
            },
        }
    }
}

impl DesignError {
    /// Human-readable description of the error.
    pub fn message(&self) -> (s: String)
        ensures
            s@ == design_error_text(*self),
    {
        match self {
            DesignError::FrequencyOutOfRange => String::from_str("frequency out of range"),
            DesignError::SampleRateOutOfRange => String::from_str("sample rate out of range"),
            DesignError::QOutOfRange => String::from_str("Q factor out of range"),
            DesignError::OrderOutOfRange => String::from_str("filter order out of range"),
            DesignError::RippleOutOfRange => String::from_str("ripple or stopband attenuation out of range"),
        }
    }
}

impl FilterError {
    /// Human-readable description of the error.
    pub fn message(&self) -> (s: String)
        ensures
            s@ == filter_error_text(*self),
    {
        match self {
            FilterError::Empty => String::from_str("filter is empty"),
            FilterError::InvalidParameter => String::from_str("invalid parameter"),
        }
    }
}

} // verus!
