//! Host reductions.

use ruccl::rank::host::reduction::{
    reduce_host_payload, reduce_host_values, validate_host_reduction_operation,
    HostReductionElement,
};
use ruccl::rank::{ElementType, ReductionOperation};

fn uneven(what: &str, bytes: usize, size: usize) -> String {
    format!("{what} byte length {bytes} is not divisible by {size}")
}

fn bitwise() -> String {
    "bitwise reductions require an integer or boolean dtype".to_string()
}

/// A double as the element of a reduction.
#[derive(Clone, Copy, Debug, PartialEq)]
struct Float(f64);

fn floats(values: &[f64]) -> Vec<Float> {
    values.iter().map(|value| Float(*value)).collect()
}

impl HostReductionElement for Float {
    const SIZE: usize = 8;

    fn decode(bytes: &[u8]) -> Result<Vec<Self>, String> {
        if bytes.len() % Self::SIZE != 0 {
            return Err(uneven("host reduction", bytes.len(), Self::SIZE));
        }
        Ok(bytes
            .chunks_exact(Self::SIZE)
            .map(|chunk| Float(f64::from_le_bytes(chunk.try_into().unwrap())))
            .collect())
    }

    fn encode(values: &[Self]) -> Vec<u8> {
        values.iter().flat_map(|value| value.0.to_le_bytes()).collect()
    }

    fn combine(self, source: Self, operation: ReductionOperation) -> Result<Self, String> {
        match operation {
            ReductionOperation::Sum => Ok(Float(self.0 + source.0)),
            ReductionOperation::Product => Ok(Float(self.0 * source.0)),
            ReductionOperation::Minimum => Ok(if source.0 < self.0 { source } else { self }),
            ReductionOperation::Maximum => Ok(if source.0 > self.0 { source } else { self }),
            _ => Err(bitwise()),
        }
    }
}

#[derive(Clone, Copy, Debug, PartialEq)]
struct Complex32 {
    real: f32,
    imaginary: f32,
}

#[derive(Clone, Copy, Debug, PartialEq)]
struct Complex64 {
    real: f64,
    imaginary: f64,
}

impl HostReductionElement for Complex32 {
    const SIZE: usize = 8;

    fn decode(bytes: &[u8]) -> Result<Vec<Self>, String> {
        if bytes.len() % Self::SIZE != 0 {
            return Err(uneven("host complex reduction", bytes.len(), Self::SIZE));
        }
        Ok(bytes
            .chunks_exact(8)
            .map(|chunk| Complex32 {
                real: f32::from_le_bytes(chunk[..4].try_into().unwrap()),
                imaginary: f32::from_le_bytes(chunk[4..].try_into().unwrap()),
            })
            .collect())
    }

    fn encode(values: &[Self]) -> Vec<u8> {
        values
            .iter()
            .flat_map(|value| {
                value.real.to_le_bytes().into_iter().chain(value.imaginary.to_le_bytes())
            })
            .collect()
    }

    fn combine(self, source: Self, operation: ReductionOperation) -> Result<Self, String> {
        match operation {
            ReductionOperation::Sum => Ok(Complex32 {
                real: self.real + source.real,
                imaginary: self.imaginary + source.imaginary,
            }),
            ReductionOperation::Product => Ok(Complex32 {
                real: self.real * source.real - self.imaginary * source.imaginary,
                imaginary: self.real * source.imaginary + self.imaginary * source.real,
            }),
            _ => Err(bitwise()),
        }
    }
}

impl HostReductionElement for Complex64 {
    const SIZE: usize = 16;

    fn decode(bytes: &[u8]) -> Result<Vec<Self>, String> {
        if bytes.len() % Self::SIZE != 0 {
            return Err(uneven("host complex reduction", bytes.len(), Self::SIZE));
        }
        Ok(bytes
            .chunks_exact(16)
            .map(|chunk| Complex64 {
                real: f64::from_le_bytes(chunk[..8].try_into().unwrap()),
                imaginary: f64::from_le_bytes(chunk[8..].try_into().unwrap()),
            })
            .collect())
    }

    fn encode(values: &[Self]) -> Vec<u8> {
        values
            .iter()
            .flat_map(|value| {
                value.real.to_le_bytes().into_iter().chain(value.imaginary.to_le_bytes())
            })
            .collect()
    }

    fn combine(self, source: Self, operation: ReductionOperation) -> Result<Self, String> {
        match operation {
            ReductionOperation::Sum => Ok(Complex64 {
                real: self.real + source.real,
                imaginary: self.imaginary + source.imaginary,
            }),
            ReductionOperation::Product => Ok(Complex64 {
                real: self.real * source.real - self.imaginary * source.imaginary,
                imaginary: self.real * source.imaginary + self.imaginary * source.real,
            }),
            _ => Err(bitwise()),
        }
    }
}

#[test]
fn host_integer_reductions_cover_numeric_bitwise_and_wrapping_semantics() {
    let payload = i64::encode(&[2, 6, 3, 4]);
    for (operation, expected) in [
        (ReductionOperation::Sum, vec![5, 10]),
        (ReductionOperation::Product, vec![6, 24]),
        (ReductionOperation::Minimum, vec![2, 4]),
        (ReductionOperation::Maximum, vec![3, 6]),
        (ReductionOperation::BitAnd, vec![2, 4]),
        (ReductionOperation::BitOr, vec![3, 6]),
        (ReductionOperation::BitXor, vec![1, 2]),
    ] {
        let reduced = reduce_host_values::<i64>(&payload, 2, 2, operation).unwrap();
        assert_eq!(i64::decode(&reduced).unwrap(), expected);
    }

    let overflow = u8::encode(&[250, 10]);
    let reduced = reduce_host_values::<u8>(&overflow, 1, 2, ReductionOperation::Sum).unwrap();
    assert_eq!(u8::decode(&reduced).unwrap(), vec![4]);
}

#[test]
fn host_boolean_reductions_match_gloo_logical_semantics() {
    let payload = bool::encode(&[false, true, true, true]);
    for (operation, expected) in [
        (ReductionOperation::Sum, vec![true, true]),
        (ReductionOperation::Product, vec![false, true]),
        (ReductionOperation::Minimum, vec![false, true]),
        (ReductionOperation::Maximum, vec![true, true]),
        (ReductionOperation::BitAnd, vec![false, true]),
        (ReductionOperation::BitOr, vec![true, true]),
        (ReductionOperation::BitXor, vec![true, false]),
    ] {
        let reduced = reduce_host_values::<bool>(&payload, 2, 2, operation).unwrap();
        assert_eq!(bool::decode(&reduced).unwrap(), expected);
    }
    assert!(bool::decode(&[2]).is_err());
}

#[test]
fn host_f64_reductions_reject_bitwise_operations() {
    let payload = Float::encode(&floats(&[2.0, 6.0, 3.0, 4.0]));
    for (operation, expected) in [
        (ReductionOperation::Sum, vec![5.0, 10.0]),
        (ReductionOperation::Product, vec![6.0, 24.0]),
        (ReductionOperation::Minimum, vec![2.0, 4.0]),
        (ReductionOperation::Maximum, vec![3.0, 6.0]),
    ] {
        let reduced = reduce_host_values::<Float>(&payload, 2, 2, operation).unwrap();
        assert_eq!(Float::decode(&reduced).unwrap(), floats(&expected));
    }
    assert!(
        validate_host_reduction_operation(ElementType::F64, ReductionOperation::BitAnd).is_err()
    );
}

#[test]
fn host_complex_reductions_cover_sum_product_and_reject_unordered_operations() {
    let values32 = [
        Complex32 {
            real: 1.0,
            imaginary: 2.0,
        },
        Complex32 {
            real: 3.0,
            imaginary: -1.0,
        },
        Complex32 {
            real: 4.0,
            imaginary: -3.0,
        },
        Complex32 {
            real: -2.0,
            imaginary: 5.0,
        },
    ];
    let encoded32 = Complex32::encode(&values32);
    assert_eq!(Complex32::decode(&encoded32).unwrap(), values32);
    let sum32 = reduce_host_values::<Complex32>(&encoded32, 2, 2, ReductionOperation::Sum).unwrap();
    assert_eq!(
        Complex32::decode(&sum32).unwrap(),
        [
            Complex32 {
                real: 5.0,
                imaginary: -1.0,
            },
            Complex32 {
                real: 1.0,
                imaginary: 4.0,
            },
        ]
    );
    let product32 =
        reduce_host_values::<Complex32>(&encoded32, 2, 2, ReductionOperation::Product).unwrap();
    assert_eq!(
        Complex32::decode(&product32).unwrap(),
        [
            Complex32 {
                real: 10.0,
                imaginary: 5.0,
            },
            Complex32 {
                real: -1.0,
                imaginary: 17.0,
            },
        ]
    );

    let values64 = [
        Complex64 {
            real: 1.25,
            imaginary: -2.5,
        },
        Complex64 {
            real: 3.75,
            imaginary: 4.5,
        },
    ];
    let encoded64 = Complex64::encode(&values64);
    assert_eq!(Complex64::decode(&encoded64).unwrap(), values64);
    let sum64 = reduce_host_values::<Complex64>(&encoded64, 1, 2, ReductionOperation::Sum).unwrap();
    assert_eq!(
        Complex64::decode(&sum64).unwrap(),
        [Complex64 {
            real: 5.0,
            imaginary: 2.0,
        }]
    );

    for element_type in [ElementType::Complex64, ElementType::Complex128] {
        for operation in [
            ReductionOperation::Minimum,
            ReductionOperation::Maximum,
            ReductionOperation::BitAnd,
            ReductionOperation::BitOr,
            ReductionOperation::BitXor,
        ] {
            assert!(validate_host_reduction_operation(element_type, operation).is_err());
        }
    }
}

#[test]
fn f64_reductions_preserve_nan_zero_and_rank_order() {
    let nan = f64::from_bits(0x7ff8_0000_0000_0123);
    let payload = Float::encode(&floats(&[
        nan,
        -0.0,
        f64::INFINITY,
        5.0,
        2.0,
        0.0,
        f64::NEG_INFINITY,
        nan,
    ]));
    for (operation, third) in [
        (ReductionOperation::Minimum, f64::NEG_INFINITY),
        (ReductionOperation::Maximum, f64::INFINITY),
    ] {
        let output = reduce_host_values::<Float>(&payload, 4, 2, operation).unwrap();
        assert_eq!(output, Float::encode(&floats(&[nan, -0.0, third, 5.0])));
    }
    let payload = Float::encode(&floats(&[1.0e16, -1.0e16, 1.0]));
    let output = reduce_host_values::<Float>(&payload, 1, 3, ReductionOperation::Sum).unwrap();
    assert_eq!(output, Float::encode(&floats(&[1.0])));
}

#[test]
fn payloads_are_reduced_by_their_element_type() {
    let reduced = reduce_host_payload::<Float, Complex32, Complex64>(
        ElementType::U16,
        &[1, 0, 255, 255, 2, 0, 2, 0],
        2,
        2,
        ReductionOperation::Sum,
    );
    assert_eq!(reduced, Ok(vec![3, 0, 1, 0]));
    let reduced = reduce_host_payload::<Float, Complex32, Complex64>(
        ElementType::F64,
        &Float::encode(&floats(&[1.5, 2.0])),
        1,
        2,
        ReductionOperation::Product,
    );
    assert_eq!(reduced, Ok(Float::encode(&floats(&[3.0]))));
    let refused = reduce_host_payload::<Float, Complex32, Complex64>(
        ElementType::BF16,
        &[0; 4],
        1,
        2,
        ReductionOperation::Sum,
    );
    assert_eq!(refused, Err("element type BF16 does not use host reduction".to_string()));
}

#[test]
fn reductions_refuse_payloads_of_the_wrong_size() {
    assert_eq!(
        reduce_host_values::<u32>(&[0; 7], 1, 2, ReductionOperation::Sum),
        Err("host reduction received 7 bytes, expected 8".to_string())
    );
    assert_eq!(
        reduce_host_values::<u32>(&[], usize::MAX, 2, ReductionOperation::Sum),
        Err("host reduction element count overflow".to_string())
    );
    assert_eq!(
        reduce_host_values::<u32>(&[], usize::MAX, 1, ReductionOperation::Sum),
        Err("host reduction byte count overflow".to_string())
    );
    assert_eq!(reduce_host_values::<u32>(&[], 0, 5, ReductionOperation::Sum), Ok(vec![]));
}
