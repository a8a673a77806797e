use vstd::prelude::*;

verus! {

/// A decoded value of a list entry; integers are kept at 64-bit width.
#[derive(PartialEq, Eq, Debug, Clone)]
pub enum AnyValue {
    Unsigned(u64),
    Signed(i64),
    String(Vec<u8>),
}

/// One entry of the value list of a `GetListResponse`.
#[derive(PartialEq, Eq, Debug, Clone)]
pub struct SmlListEntry {
    pub object_name: Vec<u8>,
    pub status: Option<u32>,
    pub value_time: Vec<u8>,
    pub unit: Option<u8>,
    pub scaler: Option<i8>,
    pub value: AnyValue,
}

#[derive(PartialEq, Eq, Debug, Clone)]
pub struct GetOpenResponseBody {
    pub server_id: Vec<u8>,
    pub req_file_id: Vec<u8>,
}

#[derive(PartialEq, Eq, Debug, Clone)]
pub struct GetListResponseBody {
    pub server_id: Vec<u8>,
    pub list_name: Vec<u8>,
    pub value_list: Vec<SmlListEntry>,
}

/// One SML message of a telegram.
#[derive(PartialEq, Eq, Debug, Clone)]
pub enum SmlMessageEnvelope {
    GetOpenResponse(GetOpenResponseBody),
    GetListResponse(GetListResponseBody),
    GetCloseResponse,
}

/// All messages decoded from one frame, in wire order.
#[derive(PartialEq, Eq, Debug, Clone)]
pub struct SmlMessages {
    pub messages: Vec<SmlMessageEnvelope>,
}

/// Mathematical form of an [`AnyValue`].
pub enum ValueModel {
    Unsigned(u64),
    Signed(i64),
    Bytes(Seq<u8>),
}

/// Mathematical form of an [`SmlListEntry`].
pub struct EntryModel {
    pub object_name: Seq<u8>,
    pub status: Option<u32>,
    pub value_time: Seq<u8>,
    pub unit: Option<u8>,
    pub scaler: Option<i8>,
    pub value: ValueModel,
}

/// Mathematical form of an [`SmlMessageEnvelope`].
pub enum EnvelopeModel {
    Open { server_id: Seq<u8>, req_file_id: Seq<u8> },
    List { server_id: Seq<u8>, list_name: Seq<u8>, value_list: Seq<EntryModel> },
    Close,
}

impl View for AnyValue {
    type V = ValueModel;

    open spec fn view(&self) -> ValueModel {
        match self {
            AnyValue::Unsigned(v) => ValueModel::Unsigned(*v),
            AnyValue::Signed(v) => ValueModel::Signed(*v),
            AnyValue::String(b) => ValueModel::Bytes(b@),
        }
    }
}

impl View for SmlListEntry {
    type V = EntryModel;

    open spec fn view(&self) -> EntryModel {
        EntryModel {
            object_name: self.object_name@,
            status: self.status,
            value_time: self.value_time@,
            unit: self.unit,
            scaler: self.scaler,
            value: self.value@,
        }
    }
}

/// The models of a sequence of list entries.
pub open spec fn entries_view(v: Seq<SmlListEntry>) -> Seq<EntryModel> {
    v.map_values(|e: SmlListEntry| e@)
}

impl View for SmlMessageEnvelope {
    type V = EnvelopeModel;

    open spec fn view(&self) -> EnvelopeModel {
        match self {
            SmlMessageEnvelope::GetOpenResponse(b) => EnvelopeModel::Open {
                server_id: b.server_id@,
                req_file_id: b.req_file_id@,
            },
            SmlMessageEnvelope::GetListResponse(b) => EnvelopeModel::List {
                server_id: b.server_id@,
                list_name: b.list_name@,
                value_list: entries_view(b.value_list@),
            },
            SmlMessageEnvelope::GetCloseResponse => EnvelopeModel::Close,
        }
    }
}

/// The models of a sequence of envelopes.
pub open spec fn envelopes_view(v: Seq<SmlMessageEnvelope>) -> Seq<EnvelopeModel> {
    v.map_values(|e: SmlMessageEnvelope| e@)
}

impl View for SmlMessages {
    type V = Seq<EnvelopeModel>;

    open spec fn view(&self) -> Seq<EnvelopeModel> {
        envelopes_view(self.messages@)
    }
}

/// `10` raised to `e`.
pub open spec fn pow10(e: nat) -> nat
    decreases e,
{
    if e == 0 {
        1
    } else {
        10 * pow10((e - 1) as nat)
    }
}

/// `m * 10^s`, truncated towards zero where `s` is negative.
pub open spec fn scale_nat(m: nat, s: int) -> nat {
    if s >= 0 {
        m * pow10(s as nat)
    } else {
        m / pow10((-s) as nat)
    }
}

pub open spec fn min_nat(a: nat, b: nat) -> nat {
    if a <= b {
        a
    } else {
        b
    }
}

/// A value scaled by `10^scaler`; a result outside the variant's range saturates,
/// and a byte string is left as it is.
pub open spec fn scaled_value(v: ValueModel, scaler: i8) -> ValueModel {
    match v {
        ValueModel::Unsigned(u) => ValueModel::Unsigned(
            min_nat(scale_nat(u as nat, scaler as int), u64::MAX as nat) as u64,
        ),
        ValueModel::Signed(i) => if i >= 0 {
            ValueModel::Signed(min_nat(scale_nat(i as nat, scaler as int), i64::MAX as nat) as i64)
        } else {
            ValueModel::Signed(
                (-(min_nat(scale_nat((-i) as nat, scaler as int), 0x8000_0000_0000_0000nat)
                    as int)) as i64,
            )
        },
        ValueModel::Bytes(b) => ValueModel::Bytes(b),
    }
}

proof fn lemma_pow10_positive(e: nat)
    ensures
        pow10(e) >= 1,
    decreases e,
{
    if e > 0 {
        lemma_pow10_positive((e - 1) as nat);
    }
}

/// `min(m * 10^scaler, cap)` for a non-negative scaler, `m / 10^-scaler` capped
/// otherwise.
fn scale_magnitude(m: u64, scaler: i8, cap: u64) -> (r: u64)
    ensures
        r as nat == min_nat(scale_nat(m as nat, scaler as int), cap as nat),
{
    if scaler >= 0 {
        let mut acc: u64 = if m <= cap {
            m
        } else {
            cap
        };
        let mut i: i8 = 0;
        proof {
            assert(pow10(0) == 1);
            assert(m as nat * pow10(0) == m as nat);
        }
        while i < scaler
            invariant
                0 <= i <= scaler,
                acc as nat == min_nat(m as nat * pow10(i as nat), cap as nat),
            decreases scaler - i,
        {
            let ghost x: nat = m as nat * pow10(i as nat);
            proof {
                assert(m as nat * pow10((i + 1) as nat) == 10 * x) by (nonlinear_arith)
                    requires
                        pow10((i + 1) as nat) == 10 * pow10(i as nat),
                        x == m as nat * pow10(i as nat),
                ;
            }
            if acc > cap / 10 {
                proof {
                    assert(10 * acc > cap) by (nonlinear_arith)
                        requires
                            acc > cap / 10,
                    ;
                    assert(10 * x >= cap) by (nonlinear_arith)
                        requires
                            acc as nat == min_nat(x, cap as nat),
                            10 * acc > cap,
                    ;
                }
                acc = cap;
            } else {
                proof {
                    assert(10 * acc <= cap) by (nonlinear_arith)
                        requires
                            acc <= cap / 10,
                    ;
                }
                acc = acc * 10;
            }
            i = i + 1;
        }
        proof {
            assert(m as nat * pow10(scaler as nat) == scale_nat(m as nat, scaler as int));
        }
        acc
    } else {
        let mut acc: u64 = m;
        let mut i: i16 = 0;
        let n: i16 = -(scaler as i16);
        proof {
            assert(pow10(0) == 1);
            assert(m as nat / pow10(0) == m as nat);
        }
        while i < n
            invariant
                0 <= i <= n,
                n == -(scaler as int),
                acc as nat == m as nat / pow10(i as nat),
            decreases n - i,
        {
            proof {
                lemma_pow10_positive(i as nat);
                vstd::arithmetic::div_mod::lemma_div_denominator(
                    m as int,
                    pow10(i as nat) as int,
                    10,
                );
                assert(pow10(i as nat) * 10 == pow10((i + 1) as nat)) by (nonlinear_arith)
                    requires
                        pow10((i + 1) as nat) == 10 * pow10(i as nat),
                ;
            }
            acc = acc / 10;
            i = i + 1;
        }
        if acc <= cap {
            acc
        } else {
            cap
        }
    }
}

/// Scaling of a value by a base-10 exponent.
pub trait Scale: View + Sized {
    spec fn scale_spec(v: Self::V, scaler: i8) -> Self::V;

    fn scale(&self, scaler: i8) -> (r: Self)
        ensures
            r@ == Self::scale_spec(self@, scaler),
    ;
}

impl Scale for AnyValue {
    open spec fn scale_spec(v: ValueModel, scaler: i8) -> ValueModel {
        scaled_value(v, scaler)
    }

    fn scale(&self, scaler: i8) -> (r: AnyValue) {
        match self {
            AnyValue::Unsigned(v) => AnyValue::Unsigned(scale_magnitude(*v, scaler, u64::MAX)),
            AnyValue::Signed(v) => {
                if *v >= 0 {
                    AnyValue::Signed(scale_magnitude(*v as u64, scaler, i64::MAX as u64) as i64)
                } else {
                    let magnitude: u64 = if *v == i64::MIN {
                        0x8000_0000_0000_0000u64
                    } else {
                        (-*v) as u64
                    };
                    let s = scale_magnitude(magnitude, scaler, 0x8000_0000_0000_0000u64);
                    if s == 0x8000_0000_0000_0000u64 {
                        AnyValue::Signed(i64::MIN)
                    } else {
                        AnyValue::Signed(-(s as i64))
                    }
                }
            },
            AnyValue::String(b) => AnyValue::String(b.clone()),
        }
    }
}

} // verus!
