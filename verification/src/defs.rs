//! Component definitions and behaviour: the single source of truth for pin
//! layouts, parameters and evaluation.
//!
//!   DefId      component kind
//!   Params     editable parameters of an instance (Copy, no allocation)
//!   PinDef     pin definition (cell offset + width + direction)
//!   CompState  private state of an instance (latched value / last clock / counter / memory)
//!   eval()     pure evaluation: inputs + state -> outputs; never writes a net
use vstd::prelude::*;
use vstd::arithmetic::power2::{pow2, lemma2_to64};
use crate::text::{indexed_name, str_eq};
use crate::values::{decimal, lemma_and_mask, lemma_span_bounds, shl_spec, shr_spec, sar_spec, mul_spec, bits_needed_spec, bits_from, lemma_bits_from_bound, lemma_shl_one, Width, normalize_width, normalized, NetValue, Bit, width_mask, bits_needed, add_wrap, sub_wrap, mul_wrap, to_signed, shl, shr, sar, low, mask, span, add_spec, sub_spec, signed_spec};

verus! {

/// Pin direction.
#[derive(Clone, Copy, PartialEq, Eq, Debug, Structural)]
pub enum Dir {
    In,
    Out,
}

/// Pin definition (offset relative to the component, in grid cells).
#[derive(Debug)]
pub struct PinDef {
    pub name: String,
    pub dx: i32,
    pub dy: i32,
    pub width: Width,
    pub dir: Dir,
}

fn pin(name: &str, dx: i32, dy: i32, width: Width, dir: Dir) -> (r: PinDef)
    ensures
        r.name@ == name@,
        r.dx == dx,
        r.dy == dy,
        r.width == width,
        r.dir == dir,
{
    PinDef { name: crate::text::copy_str(name), dx, dy, width, dir }
}

fn named_pin(name: String, dx: i32, dy: i32, width: Width, dir: Dir) -> (r: PinDef)
    ensures
        r.name == name,
        r.dx == dx,
        r.dy == dy,
        r.width == width,
        r.dir == dir,
{
    PinDef { name, dx, dy, width, dir }
}

impl PinDef {
    /// A copy of the pin definition.
    pub fn duplicate(&self) -> (r: PinDef)
        ensures
            r.name@ == self.name@,
            r.dx == self.dx,
            r.dy == self.dy,
            r.width == self.width,
            r.dir == self.dir,
    {
        PinDef { name: self.name.clone(), dx: self.dx, dy: self.dy, width: self.width, dir: self.dir }
    }
}

/// Library group (consumed by the UI).
#[derive(Clone, Copy, PartialEq, Eq, Debug, Structural)]
pub enum Category {
    Io,
    Logic,
    Routing,
    Arithmetic,
    Memory,
}

impl Category {
    pub fn id(self) -> (r: &'static str)
        ensures
            r@ == (match self {
                Category::Io => "io"@,
                Category::Logic => "logic"@,
                Category::Routing => "routing"@,
                Category::Arithmetic => "arith"@,
                Category::Memory => "memory"@,
            }),
    {
        match self {
            Category::Io => "io",
            Category::Logic => "logic",
            Category::Routing => "routing",
            Category::Arithmetic => "arith",
            Category::Memory => "memory",
        }
    }

    pub fn label(self) -> (r: &'static str)
        ensures
            r@ == (match self {
                Category::Io => "输入输出"@,
                Category::Logic => "逻辑门"@,
                Category::Routing => "多位与选择"@,
                Category::Arithmetic => "算术"@,
                Category::Memory => "存储"@,
            }),
    {
        match self {
            Category::Io => "输入输出",
            Category::Logic => "逻辑门",
            Category::Routing => "多位与选择",
            Category::Arithmetic => "算术",
            Category::Memory => "存储",
        }
    }

    /// Compact code (the shell looks colours up by it).
    pub fn code(self) -> (r: i64)
        ensures
            r == (match self {
                Category::Io => 0i64,
                Category::Logic => 1,
                Category::Routing => 2,
                Category::Arithmetic => 3,
                Category::Memory => 4,
            }),
    {
        match self {
            Category::Io => 0,
            Category::Logic => 1,
            Category::Routing => 2,
            Category::Arithmetic => 3,
            Category::Memory => 4,
        }
    }
}

// ---------------------------------------------------------------------------
// Parameters
// ---------------------------------------------------------------------------

/// Signed comparison.
pub const OPT_SIGNED: u32 = 1;

/// Sequential parts expose an enable pin.
pub const OPT_ENABLE: u32 = 2;

/// Sequential parts expose a reset pin.
pub const OPT_RESET: u32 = 4;

/// Adders / subtractors expose carry / borrow pins.
pub const OPT_CARRY: u32 = 8;

/// Shifter direction flag: set = shift left.
pub const OPT_SHIFT_LEFT: u32 = 16;

/// Instance parameters.
#[derive(Clone, Copy, PartialEq, Eq, Debug, Structural)]
pub struct Params {
    /// Data width.
    pub width: Width,
    /// Gate input count / MUX channel count / encoder input count.
    pub inputs: u8,
    /// Constant value / switch state / splitter low segment.
    pub value: u32,
    /// OPT_* flags.
    pub opts: u32,
    /// Clock high phase in ticks.
    pub high: u16,
    /// Clock low phase in ticks.
    pub low: u16,
    /// RAM / ROM depth.
    pub depth: u16,
}

impl Default for Params {
    fn default() -> (r: Self)
        ensures
            r == default_params_spec(),
    {
        Params { width: 1, inputs: 2, value: 0, opts: 0, high: 1, low: 1, depth: 256 }
    }
}

pub open spec fn default_params_spec() -> Params {
    Params { width: 1, inputs: 2, value: 0, opts: 0, high: 1, low: 1, depth: 256 }
}

/// Width of the low segment of a splitter / merger, clamped to 1..width-1.
pub open spec fn low_bits_spec(p: Params) -> u8 {
    let w: u32 = if p.width >= 2 { p.width as u32 } else { 2 };
    let v: u32 = if p.value >= 1 { p.value } else { 1 };
    (if v <= w - 1 { v } else { (w - 1) as u32 }) as u8
}

/// Splitter / merger low segment width.
pub fn low_bits(p: &Params) -> (r: Width)
    ensures
        r == low_bits_spec(*p),
        1 <= r,
        r < (if p.width >= 2 { p.width } else { 2 }),
{
    let w: u32 = if p.width >= 2 { p.width as u32 } else { 2 };
    let v: u32 = if p.value >= 1 { p.value } else { 1 };
    (if v <= w - 1 { v } else { w - 1 }) as u8
}

/// Shifter direction: 0 left, 1 logical right, 2 arithmetic right.
pub fn shift_mode(p: &Params) -> (r: u8)
    ensures
        r == (if p.value <= 2 { p.value as u8 } else { 2u8 }),
{
    if p.value <= 2 {
        p.value as u8
    } else {
        2
    }
}

/// Whether the option flag is set.
pub open spec fn has_opt(p: Params, flag: u32) -> bool {
    p.opts & flag != 0
}

/// Sets or clears one option flag.
pub open spec fn with_flag(p: Params, flag: u32, on: bool) -> Params {
    Params { opts: if on { p.opts | flag } else { p.opts & !flag }, ..p }
}

/// Clamps `v` into `lo..=hi`.
pub open spec fn clamp(v: int, lo: int, hi: int) -> int {
    if v < lo { lo } else if v > hi { hi } else { v }
}

fn clamp_i64(v: i64, lo: i64, hi: i64) -> (r: i64)
    requires
        lo <= hi,
    ensures
        r == clamp(v as int, lo as int, hi as int),
{
    if v < lo {
        lo
    } else if v > hi {
        hi
    } else {
        v
    }
}

/// Value of a named parameter (keys as listed by `DefId::params`); unknown keys read 0.
pub open spec fn get_named_spec(p: Params, key: Seq<char>) -> i64 {
    if key == "width"@ { p.width as i64 }
    else if key == "inputs"@ { p.inputs as i64 }
    else if key == "value"@ { p.value as i64 }
    else if key == "low_bits"@ { low_bits_spec(p) as i64 }
    else if key == "opts"@ { p.opts as i64 }
    else if key == "high"@ { p.high as i64 }
    else if key == "low"@ { p.low as i64 }
    else if key == "depth"@ { p.depth as i64 }
    else if key == "signed"@ { if has_opt(p, OPT_SIGNED) { 1 } else { 0 } }
    else if key == "enable"@ { if has_opt(p, OPT_ENABLE) { 1 } else { 0 } }
    else if key == "reset"@ { if has_opt(p, OPT_RESET) { 1 } else { 0 } }
    else if key == "carry"@ { if has_opt(p, OPT_CARRY) { 1 } else { 0 } }
    else if key == "mode"@ { if p.value <= 2 { p.value as i64 } else { 2 } }
    else { 0 }
}

/// Result of writing a named parameter; `None` for an unknown key.
pub open spec fn set_named_spec(p: Params, key: Seq<char>, value: i64) -> Option<Params> {
    if key == "width"@ {
        Some(Params { width: normalized((if value >= 0 { value } else { 0 }) as u32), ..p })
    } else if key == "inputs"@ {
        Some(Params { inputs: clamp(value as int, 2, 8) as u8, ..p })
    } else if key == "value"@ {
        Some(Params { value: clamp(value as int, 0, 0xFFFF_FFFF) as u32, ..p })
    } else if key == "opts"@ {
        Some(Params { opts: value as u32, ..p })
    } else if key == "low_bits"@ {
        let w: i64 = if p.width >= 2 { p.width as i64 } else { 2 };
        Some(Params { value: clamp(value as int, 1, w - 1) as u32, ..p })
    } else if key == "high"@ {
        Some(Params { high: clamp(value as int, 1, 65535) as u16, ..p })
    } else if key == "low"@ {
        Some(Params { low: clamp(value as int, 1, 65535) as u16, ..p })
    } else if key == "depth"@ {
        Some(Params { depth: clamp(value as int, 2, 65535) as u16, ..p })
    } else if key == "signed"@ {
        Some(with_flag(p, OPT_SIGNED, value != 0))
    } else if key == "enable"@ {
        Some(with_flag(p, OPT_ENABLE, value != 0))
    } else if key == "reset"@ {
        Some(with_flag(p, OPT_RESET, value != 0))
    } else if key == "carry"@ {
        Some(with_flag(p, OPT_CARRY, value != 0))
    } else if key == "mode"@ {
        Some(Params { value: clamp(value as int, 0, 2) as u32, ..p })
    } else {
        None
    }
}

proof fn reveal_param_keys()
    ensures
        "width"@ == seq!['w', 'i', 'd', 't', 'h'],
        "inputs"@ == seq!['i', 'n', 'p', 'u', 't', 's'],
        "value"@ == seq!['v', 'a', 'l', 'u', 'e'],
        "low_bits"@ == seq!['l', 'o', 'w', '_', 'b', 'i', 't', 's'],
        "opts"@ == seq!['o', 'p', 't', 's'],
        "high"@ == seq!['h', 'i', 'g', 'h'],
        "low"@ == seq!['l', 'o', 'w'],
        "depth"@ == seq!['d', 'e', 'p', 't', 'h'],
        "signed"@ == seq!['s', 'i', 'g', 'n', 'e', 'd'],
        "enable"@ == seq!['e', 'n', 'a', 'b', 'l', 'e'],
        "reset"@ == seq!['r', 'e', 's', 'e', 't'],
        "carry"@ == seq!['c', 'a', 'r', 'r', 'y'],
        "mode"@ == seq!['m', 'o', 'd', 'e'],
{
    reveal_strlit("width");
    reveal_strlit("inputs");
    reveal_strlit("value");
    reveal_strlit("low_bits");
    reveal_strlit("opts");
    reveal_strlit("high");
    reveal_strlit("low");
    reveal_strlit("depth");
    reveal_strlit("signed");
    reveal_strlit("enable");
    reveal_strlit("reset");
    reveal_strlit("carry");
    reveal_strlit("mode");
}

impl Params {
    /// Builder: width, rounded up to an allowed width.
    pub fn width(self, w: u32) -> (r: Self)
        ensures
            r == (Params { width: normalized(w), ..self }),
    {
        Params { width: normalize_width(w), ..self }
    }

    pub fn inputs(self, n: u8) -> (r: Self)
        ensures
            r == (Params { inputs: n, ..self }),
    {
        Params { inputs: n, ..self }
    }

    pub fn opts(self, o: u32) -> (r: Self)
        ensures
            r == (Params { opts: o, ..self }),
    {
        Params { opts: o, ..self }
    }

    pub fn depth(self, d: u16) -> (r: Self)
        ensures
            r == (Params { depth: d, ..self }),
    {
        Params { depth: d, ..self }
    }

    /// Read a parameter by name.
    pub fn get_named(&self, key: &str) -> (r: i64)
        ensures
            r == get_named_spec(*self, key@),
    {
        proof {
            reveal_param_keys();
        }
        let flag = |b: bool| -> (r: i64)
            ensures
                r == (if b { 1i64 } else { 0i64 }),
            { if b { 1i64 } else { 0i64 } };
        if str_eq(key, "width") {
            self.width as i64
        } else if str_eq(key, "inputs") {
            self.inputs as i64
        } else if str_eq(key, "value") {
            self.value as i64
        } else if str_eq(key, "low_bits") {
            low_bits(self) as i64
        } else if str_eq(key, "opts") {
            self.opts as i64
        } else if str_eq(key, "high") {
            self.high as i64
        } else if str_eq(key, "low") {
            self.low as i64
        } else if str_eq(key, "depth") {
            self.depth as i64
        } else if str_eq(key, "signed") {
            flag(self.opts & OPT_SIGNED != 0)
        } else if str_eq(key, "enable") {
            flag(self.opts & OPT_ENABLE != 0)
        } else if str_eq(key, "reset") {
            flag(self.opts & OPT_RESET != 0)
        } else if str_eq(key, "carry") {
            flag(self.opts & OPT_CARRY != 0)
        } else if str_eq(key, "mode") {
            shift_mode(self) as i64
        } else {
            0
        }
    }

    fn set_flag(&mut self, mask: u32, on: bool)
        ensures
            *final(self) == with_flag(*old(self), mask, on),
    {
        if on {
            self.opts = self.opts | mask;
        } else {
            self.opts = self.opts & !mask;
        }
    }

    /// Write a parameter by name; returns whether the key was accepted
    /// (an unknown key leaves the parameters unchanged).
    pub fn set_named(&mut self, key: &str, value: i64) -> (r: bool)
        ensures
            r == set_named_spec(*old(self), key@, value).is_some(),
            r ==> *final(self) == set_named_spec(*old(self), key@, value).unwrap(),
            !r ==> *final(self) == *old(self),
    {
        proof {
            reveal_param_keys();
        }
        if str_eq(key, "width") {
            self.width = normalize_width((if value >= 0 { value } else { 0 }) as u32);
            true
        } else if str_eq(key, "inputs") {
            self.inputs = clamp_i64(value, 2, 8) as u8;
            true
        } else if str_eq(key, "value") {
            self.value = clamp_i64(value, 0, 0xFFFF_FFFF) as u32;
            true
        } else if str_eq(key, "opts") {
            self.opts = value as u32;
            true
        } else if str_eq(key, "low_bits") {
            let w: i64 = if self.width >= 2 { self.width as i64 } else { 2 };
            self.value = clamp_i64(value, 1, w - 1) as u32;
            true
        } else if str_eq(key, "high") {
            self.high = clamp_i64(value, 1, 65535) as u16;
            true
        } else if str_eq(key, "low") {
            self.low = clamp_i64(value, 1, 65535) as u16;
            true
        } else if str_eq(key, "depth") {
            self.depth = clamp_i64(value, 2, 65535) as u16;
            true
        } else if str_eq(key, "signed") {
            self.set_flag(OPT_SIGNED, value != 0);
            true
        } else if str_eq(key, "enable") {
            self.set_flag(OPT_ENABLE, value != 0);
            true
        } else if str_eq(key, "reset") {
            self.set_flag(OPT_RESET, value != 0);
            true
        } else if str_eq(key, "carry") {
            self.set_flag(OPT_CARRY, value != 0);
            true
        } else if str_eq(key, "mode") {
            self.value = clamp_i64(value, 0, 2) as u32;
            true
        } else {
            false
        }
    }
}

/// Whether a named parameter read after a write gives back what the write
/// stored: for the plain integer keys, `get_named(k)` after `set_named(k, v)`
/// is `v` clamped into the key's range.
pub proof fn law_set_then_get_inputs(p: Params, v: i64)
    ensures
        get_named_spec(set_named_spec(p, "inputs"@, v).unwrap(), "inputs"@) == clamp(v as int, 2, 8),
        get_named_spec(set_named_spec(p, "depth"@, v).unwrap(), "depth"@) == clamp(v as int, 2, 65535),
        get_named_spec(set_named_spec(p, "high"@, v).unwrap(), "high"@) == clamp(v as int, 1, 65535),
        get_named_spec(set_named_spec(p, "mode"@, v).unwrap(), "mode"@) == clamp(v as int, 0, 2),
{
    reveal_param_keys();
}


// ---------------------------------------------------------------------------
// Component kinds
// ---------------------------------------------------------------------------

/// Built-in component kinds.
#[derive(Clone, Copy, PartialEq, Eq, Debug, Hash, Structural)]
pub enum DefId {
    Button,
    Switch,
    Clock,
    Constant,
    Led,
    Not,
    Buffer,
    And,
    Or,
    Nand,
    Nor,
    Xor,
    Xnor,
    Splitter,
    Merger,
    Mux,
    Decoder,
    PriorityEncoder,
    HalfAdder,
    FullAdder,
    Adder,
    Subtractor,
    Multiplier,
    Comparator,
    Shifter,
    Alu,
    Dff,
    Register,
    Counter,
    Ram,
    Rom,
    /// Sub-circuit shell: its pins and behaviour come from the referenced drawing.
    Custom,
    /// Inside a sub-circuit: brings an outer input in.
    InputPin,
    /// Inside a sub-circuit: sends a result out.
    OutputPin,
    SevenSeg,
    Display,
}

/// The library order of the built-in kinds (every kind but `Custom`).
pub open spec fn all_spec() -> Seq<DefId> {
    seq![
        DefId::Button, DefId::Switch, DefId::Clock, DefId::Constant, DefId::Led, DefId::Not,
        DefId::Buffer, DefId::And, DefId::Or, DefId::Nand, DefId::Nor, DefId::Xor, DefId::Xnor,
        DefId::Splitter, DefId::Merger, DefId::Mux, DefId::Decoder, DefId::PriorityEncoder,
        DefId::HalfAdder, DefId::FullAdder, DefId::Adder, DefId::Subtractor, DefId::Multiplier,
        DefId::Comparator, DefId::Shifter, DefId::Alu, DefId::Dff, DefId::Register,
        DefId::Counter, DefId::Ram, DefId::Rom, DefId::InputPin, DefId::OutputPin,
        DefId::SevenSeg, DefId::Display,
    ]
}

/// Stable identifier of a kind (the persisted contract).
pub open spec fn id_spec(d: DefId) -> Seq<char> {
    match d {
        DefId::Button => "button"@,
        DefId::Switch => "switch"@,
        DefId::Clock => "clock"@,
        DefId::Constant => "constant"@,
        DefId::Led => "led"@,
        DefId::Not => "not"@,
        DefId::Buffer => "buffer"@,
        DefId::And => "and"@,
        DefId::Or => "or"@,
        DefId::Nand => "nand"@,
        DefId::Nor => "nor"@,
        DefId::Xor => "xor"@,
        DefId::Xnor => "xnor"@,
        DefId::Splitter => "splitter"@,
        DefId::Merger => "merger"@,
        DefId::Mux => "mux"@,
        DefId::Decoder => "decoder"@,
        DefId::PriorityEncoder => "prio_enc"@,
        DefId::HalfAdder => "half_adder"@,
        DefId::FullAdder => "full_adder"@,
        DefId::Adder => "adder"@,
        DefId::Subtractor => "subtractor"@,
        DefId::Multiplier => "multiplier"@,
        DefId::Comparator => "comparator"@,
        DefId::Shifter => "shifter"@,
        DefId::Alu => "alu"@,
        DefId::Dff => "dff"@,
        DefId::Register => "register"@,
        DefId::Counter => "counter"@,
        DefId::Ram => "ram"@,
        DefId::Rom => "rom"@,
        DefId::Custom => "custom"@,
        DefId::InputPin => "input_pin"@,
        DefId::OutputPin => "output_pin"@,
        DefId::SevenSeg => "seven_seg"@,
        DefId::Display => "display"@,
    }
}

/// Display name of a kind.
pub open spec fn label_spec(d: DefId) -> Seq<char> {
    match d {
        DefId::Button => "按钮"@,
        DefId::Switch => "开关"@,
        DefId::Clock => "时钟"@,
        DefId::Constant => "常量"@,
        DefId::Led => "探针 / LED"@,
        DefId::Not => "NOT"@,
        DefId::Buffer => "Buffer"@,
        DefId::And => "AND"@,
        DefId::Or => "OR"@,
        DefId::Nand => "NAND"@,
        DefId::Nor => "NOR"@,
        DefId::Xor => "XOR"@,
        DefId::Xnor => "XNOR"@,
        DefId::Splitter => "Splitter"@,
        DefId::Merger => "Merger"@,
        DefId::Mux => "MUX"@,
        DefId::Decoder => "译码器"@,
        DefId::PriorityEncoder => "优先编码器"@,
        DefId::HalfAdder => "半加器"@,
        DefId::FullAdder => "全加器"@,
        DefId::Adder => "加法器"@,
        DefId::Subtractor => "减法器"@,
        DefId::Multiplier => "乘法器"@,
        DefId::Comparator => "比较器"@,
        DefId::Shifter => "移位器"@,
        DefId::Alu => "ALU"@,
        DefId::Dff => "D 触发器"@,
        DefId::Register => "寄存器"@,
        DefId::Counter => "计数器"@,
        DefId::Ram => "RAM"@,
        DefId::Rom => "ROM"@,
        DefId::Custom => "子电路"@,
        DefId::InputPin => "输入接口"@,
        DefId::OutputPin => "输出接口"@,
        DefId::SevenSeg => "数码管"@,
        DefId::Display => "显示屏"@,
    }
}

pub open spec fn category_spec(d: DefId) -> Category {
    match d {
        DefId::Button | DefId::Switch | DefId::Clock | DefId::Constant | DefId::Led => Category::Io,
        DefId::Not | DefId::Buffer | DefId::And | DefId::Or | DefId::Nand | DefId::Nor | DefId::Xor
        | DefId::Xnor => Category::Logic,
        DefId::Splitter | DefId::Merger | DefId::Mux | DefId::Decoder | DefId::PriorityEncoder =>
            Category::Routing,
        DefId::HalfAdder | DefId::FullAdder | DefId::Adder | DefId::Subtractor | DefId::Multiplier
        | DefId::Comparator | DefId::Shifter | DefId::Alu => Category::Arithmetic,
        DefId::Dff | DefId::Register | DefId::Counter | DefId::Ram | DefId::Rom => Category::Memory,
        DefId::Custom | DefId::InputPin | DefId::OutputPin | DefId::SevenSeg | DefId::Display =>
            Category::Io,
    }
}

/// Observation-only kinds: inputs only, drive nothing.
pub open spec fn is_sink_spec(d: DefId) -> bool {
    d == DefId::Led || d == DefId::SevenSeg || d == DefId::OutputPin
}

/// Kinds the engine builds no runtime component for.
pub open spec fn is_passive_spec(d: DefId) -> bool {
    is_sink_spec(d) || d == DefId::InputPin || d == DefId::Custom
}

/// Kinds without inputs that drive a value.
pub open spec fn is_source_spec(d: DefId) -> bool {
    d == DefId::Button || d == DefId::Switch || d == DefId::Clock || d == DefId::Constant || d
        == DefId::InputPin
}

/// Kinds with internal state.
pub open spec fn is_sequential_spec(d: DefId) -> bool {
    d == DefId::Dff || d == DefId::Register || d == DefId::Counter || d == DefId::Ram || d
        == DefId::Display
}

pub open spec fn supports_width_spec(d: DefId) -> bool {
    !(d == DefId::Clock || d == DefId::Led || d == DefId::Button || d == DefId::Switch || d
        == DefId::HalfAdder || d == DefId::FullAdder || d == DefId::Dff || d == DefId::Custom)
}

pub open spec fn has_input_count_spec(d: DefId) -> bool {
    d == DefId::And || d == DefId::Or || d == DefId::Nand || d == DefId::Nor || d == DefId::Xor
        || d == DefId::Xnor || d == DefId::Mux || d == DefId::PriorityEncoder
}

pub open spec fn default_params_of(d: DefId) -> Params {
    let base = default_params_spec();
    match d {
        DefId::Splitter | DefId::Merger => Params { width: 4, ..base },
        DefId::Mux => Params { width: 8, inputs: 2, ..base },
        DefId::Decoder => Params { width: 8, ..base },
        DefId::PriorityEncoder => Params { width: 1, inputs: 4, ..base },
        DefId::Adder | DefId::Subtractor => Params { width: 8, opts: OPT_CARRY, ..base },
        DefId::Multiplier | DefId::Comparator | DefId::Shifter | DefId::Alu => Params {
            width: 8,
            ..base
        },
        DefId::Dff => Params { width: 1, opts: OPT_ENABLE, ..base },
        DefId::Register | DefId::Counter => Params {
            width: 8,
            opts: OPT_ENABLE | OPT_RESET,
            ..base
        },
        DefId::Ram | DefId::Rom => Params { width: 8, depth: 256, ..base },
        DefId::Custom => base,
        DefId::Display => Params { width: 8, depth: 8, ..base },
        _ => Params { width: 1, ..base },
    }
}

/// Gate input count (at least two).
pub open spec fn fan_in(p: Params) -> nat {
    if p.inputs >= 2 { p.inputs as nat } else { 2 }
}

/// Number of decoder outputs.
pub open spec fn decoder_outs(p: Params) -> nat {
    pow2(bits_needed_spec(if p.width >= 2 { p.width as u32 } else { 2 }) as nat)
}

/// Number of output pins.
pub open spec fn out_count_spec(d: DefId, p: Params) -> nat {
    match d {
        DefId::Led => 0,
        DefId::Splitter => 2,
        DefId::Decoder => decoder_outs(p),
        DefId::PriorityEncoder => 2,
        DefId::HalfAdder | DefId::FullAdder => 2,
        DefId::Adder | DefId::Subtractor => if has_opt(p, OPT_CARRY) { 2 } else { 1 },
        DefId::Comparator => 3,
        DefId::Custom | DefId::OutputPin | DefId::SevenSeg | DefId::Display => 0,
        _ => 1,
    }
}

/// Number of input pins.
pub open spec fn in_count_spec(d: DefId, p: Params) -> nat {
    let en: nat = if has_opt(p, OPT_ENABLE) { 1 } else { 0 };
    let rst: nat = if has_opt(p, OPT_RESET) { 1 } else { 0 };
    match d {
        DefId::Button | DefId::Switch | DefId::Clock | DefId::Constant => 0,
        DefId::Led | DefId::Not | DefId::Buffer => 1,
        DefId::And | DefId::Or | DefId::Nand | DefId::Nor | DefId::Xor | DefId::Xnor => fan_in(p),
        DefId::Splitter => 1,
        DefId::Merger => 2,
        DefId::Mux => fan_in(p) + 1,
        DefId::Decoder => 1,
        DefId::PriorityEncoder => fan_in(p),
        DefId::HalfAdder => 2,
        DefId::FullAdder => 3,
        DefId::Adder | DefId::Subtractor => if has_opt(p, OPT_CARRY) { 3 } else { 2 },
        DefId::Multiplier | DefId::Comparator | DefId::Shifter => 2,
        DefId::Alu => 3,
        DefId::Dff | DefId::Register => 2 + en + rst,
        DefId::Counter => 1 + en + rst,
        DefId::Ram => 4,
        DefId::Rom => 1,
        DefId::Custom | DefId::InputPin => 0,
        DefId::OutputPin | DefId::SevenSeg => 1,
        DefId::Display => 4,
    }
}

/// Pin list whose first `k` pins are inputs and the rest outputs.
pub open spec fn grouped(pins: Seq<PinDef>, k: nat) -> bool {
    forall|i: int| 0 <= i < pins.len() ==> ((pins[i].dir == Dir::In) == (i < k))
}

/// A built-in component has at most a few hundred pins.
pub proof fn lemma_pin_count_bound(d: DefId, p: Params)
    ensures
        in_count_spec(d, p) + out_count_spec(d, p) <= 600,
{
    lemma_decoder_outs(p);
}

proof fn lemma_decoder_outs(p: Params)
    ensures
        2 <= decoder_outs(p) <= 256,
{
    let b: u32 = if p.width >= 2 { p.width as u32 } else { 2 };
    lemma_bits_from_bound(1, b);
    lemma2_to64();
    let r = bits_from(1, b);
    lemma_bits_from_props(1, b);
    if r > 8 {
        assert(pow2(8) < b);
    }
    vstd::arithmetic::power2::lemma_pow2_pos(r);
    if r < 8 {
        vstd::arithmetic::power2::lemma_pow2_strictly_increases(r, 8);
    }
    if r > 1 {
        vstd::arithmetic::power2::lemma_pow2_strictly_increases(1, r);
    }
}

proof fn lemma_bits_from_props(w: nat, bits: u32)
    requires
        1 <= w <= 32,
    ensures
        forall|k: nat| w <= k < bits_from(w, bits) ==> pow2(k) < bits,
    decreases 32 - w,
{
    vstd::arithmetic::power2::lemma_pow2_pos(w);
    if w < 32 && pow2(w) < (if bits > 1 { bits as nat } else { 1 }) {
        lemma_bits_from_props(w + 1, bits);
    }
}

proof fn reveal_ids()
    ensures
        forall|d: DefId| #[trigger] id_spec(d) == id_chars(d),
{
    reveal_strlit("button");
    reveal_strlit("switch");
    reveal_strlit("clock");
    reveal_strlit("constant");
    reveal_strlit("led");
    reveal_strlit("not");
    reveal_strlit("buffer");
    reveal_strlit("and");
    reveal_strlit("or");
    reveal_strlit("nand");
    reveal_strlit("nor");
    reveal_strlit("xor");
    reveal_strlit("xnor");
    reveal_strlit("splitter");
    reveal_strlit("merger");
    reveal_strlit("mux");
    reveal_strlit("decoder");
    reveal_strlit("prio_enc");
    reveal_strlit("half_adder");
    reveal_strlit("full_adder");
    reveal_strlit("adder");
    reveal_strlit("subtractor");
    reveal_strlit("multiplier");
    reveal_strlit("comparator");
    reveal_strlit("shifter");
    reveal_strlit("alu");
    reveal_strlit("dff");
    reveal_strlit("register");
    reveal_strlit("counter");
    reveal_strlit("ram");
    reveal_strlit("rom");
    reveal_strlit("custom");
    reveal_strlit("input_pin");
    reveal_strlit("output_pin");
    reveal_strlit("seven_seg");
    reveal_strlit("display");
}

/// The identifier characters, spelled out.
pub open spec fn id_chars(d: DefId) -> Seq<char> {
    match d {
        DefId::Button => seq!['b', 'u', 't', 't', 'o', 'n'],
        DefId::Switch => seq!['s', 'w', 'i', 't', 'c', 'h'],
        DefId::Clock => seq!['c', 'l', 'o', 'c', 'k'],
        DefId::Constant => seq!['c', 'o', 'n', 's', 't', 'a', 'n', 't'],
        DefId::Led => seq!['l', 'e', 'd'],
        DefId::Not => seq!['n', 'o', 't'],
        DefId::Buffer => seq!['b', 'u', 'f', 'f', 'e', 'r'],
        DefId::And => seq!['a', 'n', 'd'],
        DefId::Or => seq!['o', 'r'],
        DefId::Nand => seq!['n', 'a', 'n', 'd'],
        DefId::Nor => seq!['n', 'o', 'r'],
        DefId::Xor => seq!['x', 'o', 'r'],
        DefId::Xnor => seq!['x', 'n', 'o', 'r'],
        DefId::Splitter => seq!['s', 'p', 'l', 'i', 't', 't', 'e', 'r'],
        DefId::Merger => seq!['m', 'e', 'r', 'g', 'e', 'r'],
        DefId::Mux => seq!['m', 'u', 'x'],
        DefId::Decoder => seq!['d', 'e', 'c', 'o', 'd', 'e', 'r'],
        DefId::PriorityEncoder => seq!['p', 'r', 'i', 'o', '_', 'e', 'n', 'c'],
        DefId::HalfAdder => seq!['h', 'a', 'l', 'f', '_', 'a', 'd', 'd', 'e', 'r'],
        DefId::FullAdder => seq!['f', 'u', 'l', 'l', '_', 'a', 'd', 'd', 'e', 'r'],
        DefId::Adder => seq!['a', 'd', 'd', 'e', 'r'],
        DefId::Subtractor => seq!['s', 'u', 'b', 't', 'r', 'a', 'c', 't', 'o', 'r'],
        DefId::Multiplier => seq!['m', 'u', 'l', 't', 'i', 'p', 'l', 'i', 'e', 'r'],
        DefId::Comparator => seq!['c', 'o', 'm', 'p', 'a', 'r', 'a', 't', 'o', 'r'],
        DefId::Shifter => seq!['s', 'h', 'i', 'f', 't', 'e', 'r'],
        DefId::Alu => seq!['a', 'l', 'u'],
        DefId::Dff => seq!['d', 'f', 'f'],
        DefId::Register => seq!['r', 'e', 'g', 'i', 's', 't', 'e', 'r'],
        DefId::Counter => seq!['c', 'o', 'u', 'n', 't', 'e', 'r'],
        DefId::Ram => seq!['r', 'a', 'm'],
        DefId::Rom => seq!['r', 'o', 'm'],
        DefId::Custom => seq!['c', 'u', 's', 't', 'o', 'm'],
        DefId::InputPin => seq!['i', 'n', 'p', 'u', 't', '_', 'p', 'i', 'n'],
        DefId::OutputPin => seq!['o', 'u', 't', 'p', 'u', 't', '_', 'p', 'i', 'n'],
        DefId::SevenSeg => seq!['s', 'e', 'v', 'e', 'n', '_', 's', 'e', 'g'],
        DefId::Display => seq!['d', 'i', 's', 'p', 'l', 'a', 'y'],
    }
}

/// Different kinds have different identifiers.
pub proof fn law_ids_are_distinct(a: DefId, b: DefId)
    requires
        id_spec(a) == id_spec(b),
    ensures
        a == b,
{
    reveal_ids();
    assert(id_spec(a) == id_chars(a));
    assert(id_spec(b) == id_chars(b));
    let (x, y) = (id_chars(a), id_chars(b));
    assert(x.len() == y.len());
    if x.len() > 0 {
        assert(x[0] == y[0]);
    }
    if x.len() > 1 {
        assert(x[1] == y[1]);
    }
    if x.len() > 2 {
        assert(x[2] == y[2]);
    }
    if x.len() > 3 {
        assert(x[3] == y[3]);
    }
    if x.len() > 4 {
        assert(x[4] == y[4]);
    }
}

impl DefId {
    /// Every built-in kind, in library order (`Custom` is not in the library).
    pub fn all() -> (r: Vec<DefId>)
        ensures
            r@ == all_spec(),
    {
        let r = vec![
            DefId::Button, DefId::Switch, DefId::Clock, DefId::Constant, DefId::Led, DefId::Not,
            DefId::Buffer, DefId::And, DefId::Or, DefId::Nand, DefId::Nor, DefId::Xor,
            DefId::Xnor, DefId::Splitter, DefId::Merger, DefId::Mux, DefId::Decoder,
            DefId::PriorityEncoder, DefId::HalfAdder, DefId::FullAdder, DefId::Adder,
            DefId::Subtractor, DefId::Multiplier, DefId::Comparator, DefId::Shifter, DefId::Alu,
            DefId::Dff, DefId::Register, DefId::Counter, DefId::Ram, DefId::Rom, DefId::InputPin,
            DefId::OutputPin, DefId::SevenSeg, DefId::Display,
        ];
        assert(r@ =~= all_spec());
        r
    }

    /// Stable identifier string (serialisation / bridging).
    pub fn id(self) -> (r: &'static str)
        ensures
            r@ == id_spec(self),
    {
        match self {
            DefId::Button => "button",
            DefId::Switch => "switch",
            DefId::Clock => "clock",
            DefId::Constant => "constant",
            DefId::Led => "led",
            DefId::Not => "not",
            DefId::Buffer => "buffer",
            DefId::And => "and",
            DefId::Or => "or",
            DefId::Nand => "nand",
            DefId::Nor => "nor",
            DefId::Xor => "xor",
            DefId::Xnor => "xnor",
            DefId::Splitter => "splitter",
            DefId::Merger => "merger",
            DefId::Mux => "mux",
            DefId::Decoder => "decoder",
            DefId::PriorityEncoder => "prio_enc",
            DefId::HalfAdder => "half_adder",
            DefId::FullAdder => "full_adder",
            DefId::Adder => "adder",
            DefId::Subtractor => "subtractor",
            DefId::Multiplier => "multiplier",
            DefId::Comparator => "comparator",
            DefId::Shifter => "shifter",
            DefId::Alu => "alu",
            DefId::Dff => "dff",
            DefId::Register => "register",
            DefId::Counter => "counter",
            DefId::Ram => "ram",
            DefId::Rom => "rom",
            DefId::Custom => "custom",
            DefId::InputPin => "input_pin",
            DefId::OutputPin => "output_pin",
            DefId::SevenSeg => "seven_seg",
            DefId::Display => "display",
        }
    }

    /// Kind of an identifier string; `None` for an unknown one.
    pub fn from_id(s: &str) -> (r: Option<DefId>)
        ensures
            forall|d: DefId| r == Some(d) <==> id_spec(d) == s@,
    {
        if str_eq(s, DefId::Custom.id()) {
            proof {
                assert forall|d: DefId| id_spec(d) == s@ implies d == DefId::Custom by {
                    law_ids_are_distinct(d, DefId::Custom);
                }
            }
            return Some(DefId::Custom);
        }
        let all = DefId::all();
        let mut i: usize = 0;
        while i < all.len()
            invariant
                all@ == all_spec(),
                i <= all.len(),
                forall|j: int| 0 <= j < i ==> id_spec(#[trigger] all@[j]) != s@,
            decreases all.len() - i,
        {
            let d = all[i];
            if str_eq(s, d.id()) {
                proof {
                    assert forall|e: DefId| id_spec(e) == s@ implies e == d by {
                        law_ids_are_distinct(d, e);
                    }
                }
                return Some(d);
            }
            i = i + 1;
        }
        proof {
            assert forall|d: DefId| id_spec(d) != s@ by {
                if d != DefId::Custom {
                    let k = choose|k: int| 0 <= k < all_spec().len() && all_spec()[k] == d;
                    assert(all@[k] == d);
                }
            }
        }
        None
    }

    /// Display name (industry terms).
    pub fn label(self) -> (r: &'static str)
        ensures
            r@ == label_spec(self),
    {
        match self {
            DefId::Button => "按钮",
            DefId::Switch => "开关",
            DefId::Clock => "时钟",
            DefId::Constant => "常量",
            DefId::Led => "探针 / LED",
            DefId::Not => "NOT",
            DefId::Buffer => "Buffer",
            DefId::And => "AND",
            DefId::Or => "OR",
            DefId::Nand => "NAND",
            DefId::Nor => "NOR",
            DefId::Xor => "XOR",
            DefId::Xnor => "XNOR",
            DefId::Splitter => "Splitter",
            DefId::Merger => "Merger",
            DefId::Mux => "MUX",
            DefId::Decoder => "译码器",
            DefId::PriorityEncoder => "优先编码器",
            DefId::HalfAdder => "半加器",
            DefId::FullAdder => "全加器",
            DefId::Adder => "加法器",
            DefId::Subtractor => "减法器",
            DefId::Multiplier => "乘法器",
            DefId::Comparator => "比较器",
            DefId::Shifter => "移位器",
            DefId::Alu => "ALU",
            DefId::Dff => "D 触发器",
            DefId::Register => "寄存器",
            DefId::Counter => "计数器",
            DefId::Ram => "RAM",
            DefId::Rom => "ROM",
            DefId::Custom => "子电路",
            DefId::InputPin => "输入接口",
            DefId::OutputPin => "输出接口",
            DefId::SevenSeg => "数码管",
            DefId::Display => "显示屏",
        }
    }

    pub fn category(self) -> (r: Category)
        ensures
            r == category_spec(self),
    {
        match self {
            DefId::Button | DefId::Switch | DefId::Clock | DefId::Constant | DefId::Led => {
                Category::Io
            },
            DefId::Not | DefId::Buffer | DefId::And | DefId::Or | DefId::Nand | DefId::Nor
            | DefId::Xor | DefId::Xnor => Category::Logic,
            DefId::Splitter | DefId::Merger | DefId::Mux | DefId::Decoder
            | DefId::PriorityEncoder => Category::Routing,
            DefId::HalfAdder | DefId::FullAdder | DefId::Adder | DefId::Subtractor
            | DefId::Multiplier | DefId::Comparator | DefId::Shifter | DefId::Alu => {
                Category::Arithmetic
            },
            DefId::Dff | DefId::Register | DefId::Counter | DefId::Ram | DefId::Rom => {
                Category::Memory
            },
            DefId::Custom | DefId::InputPin | DefId::OutputPin | DefId::SevenSeg
            | DefId::Display => Category::Io,
        }
    }

    /// Observation-only kinds: inputs only, they drive no net.
    pub fn is_sink(self) -> (r: bool)
        ensures
            r == is_sink_spec(self),
    {
        self == DefId::Led || self == DefId::SevenSeg || self == DefId::OutputPin
    }

    /// Kinds the engine builds no runtime component for: sinks, sub-circuit
    /// interfaces (merged into one net when the hierarchy is flattened) and shells.
    pub fn is_passive(self) -> (r: bool)
        ensures
            r == is_passive_spec(self),
    {
        self.is_sink() || self == DefId::InputPin || self == DefId::Custom
    }

    /// Kinds without inputs.
    pub fn is_source(self) -> (r: bool)
        ensures
            r == is_source_spec(self),
    {
        self == DefId::Button || self == DefId::Switch || self == DefId::Clock || self
            == DefId::Constant || self == DefId::InputPin
    }

    /// Sequential kinds with internal state.
    pub fn is_sequential(self) -> (r: bool)
        ensures
            r == is_sequential_spec(self),
    {
        self == DefId::Dff || self == DefId::Register || self == DefId::Counter || self
            == DefId::Ram || self == DefId::Display
    }

    /// Whether the kind may be wider than one bit.
    pub fn supports_width(self) -> (r: bool)
        ensures
            r == supports_width_spec(self),
    {
        !(self == DefId::Clock || self == DefId::Led || self == DefId::Button || self
            == DefId::Switch || self == DefId::HalfAdder || self == DefId::FullAdder || self
            == DefId::Dff || self == DefId::Custom)
    }

    /// Whether the input count is a parameter.
    pub fn has_input_count(self) -> (r: bool)
        ensures
            r == has_input_count_spec(self),
    {
        self == DefId::And || self == DefId::Or || self == DefId::Nand || self == DefId::Nor
            || self == DefId::Xor || self == DefId::Xnor || self == DefId::Mux || self
            == DefId::PriorityEncoder
    }

    pub fn default_params(self) -> (r: Params)
        ensures
            r == default_params_of(self),
    {
        let base = Params::default();
        match self {
            DefId::Splitter | DefId::Merger => base.width(4),
            DefId::Mux => base.width(8).inputs(2),
            DefId::Decoder => base.width(8),
            DefId::PriorityEncoder => base.width(1).inputs(4),
            DefId::Adder | DefId::Subtractor => base.width(8).opts(OPT_CARRY),
            DefId::Multiplier | DefId::Comparator | DefId::Shifter | DefId::Alu => base.width(8),
            DefId::Dff => base.width(1).opts(OPT_ENABLE),
            DefId::Register | DefId::Counter => base.width(8).opts(OPT_ENABLE | OPT_RESET),
            DefId::Ram | DefId::Rom => base.width(8).depth(256),
            DefId::Custom => base,
            DefId::Display => base.width(8).depth(8),
            _ => base.width(1),
        }
    }

    /// Number of output pins (the engine checks / preallocates with it).
    pub fn out_count(self, p: &Params) -> (r: usize)
        ensures
            r as nat == out_count_spec(self, *p),
    {
        match self {
            DefId::Led => 0,
            DefId::Splitter => 2,
            DefId::Decoder => {
                let b = bits_needed(if p.width >= 2 { p.width as u32 } else { 2 });
                proof {
                    lemma_decoder_outs(*p);
                    lemma2_to64();
                    if b < 32 {
                        lemma_shl_one(b as u32);
                    }
                    if b > 8 {
                        vstd::arithmetic::power2::lemma_pow2_strictly_increases(8, b as nat);
                    }
                }
                (1u32 << b) as usize
            },
            DefId::PriorityEncoder => 2,
            DefId::HalfAdder | DefId::FullAdder => 2,
            DefId::Adder | DefId::Subtractor => {
                if p.opts & OPT_CARRY != 0 {
                    2
                } else {
                    1
                }
            },
            DefId::Comparator => 3,
            DefId::Custom | DefId::OutputPin | DefId::SevenSeg | DefId::Display => 0,
            _ => 1,
        }
    }

    /// Number of input pins.
    pub fn in_count(self, p: &Params) -> (r: usize)
        ensures
            r as nat == in_count_spec(self, *p),
    {
        let en: usize = if p.opts & OPT_ENABLE != 0 { 1 } else { 0 };
        let rst: usize = if p.opts & OPT_RESET != 0 { 1 } else { 0 };
        let n: usize = if p.inputs >= 2 { p.inputs as usize } else { 2 };
        match self {
            DefId::Button | DefId::Switch | DefId::Clock | DefId::Constant => 0,
            DefId::Led | DefId::Not | DefId::Buffer => 1,
            DefId::And | DefId::Or | DefId::Nand | DefId::Nor | DefId::Xor | DefId::Xnor => n,
            DefId::Splitter => 1,
            DefId::Merger => 2,
            DefId::Mux => n + 1,
            DefId::Decoder => 1,
            DefId::PriorityEncoder => n,
            DefId::HalfAdder => 2,
            DefId::FullAdder => 3,
            DefId::Adder | DefId::Subtractor => {
                if p.opts & OPT_CARRY != 0 {
                    3
                } else {
                    2
                }
            },
            DefId::Multiplier | DefId::Comparator | DefId::Shifter => 2,
            DefId::Alu => 3,
            DefId::Dff | DefId::Register => 2 + en + rst,
            DefId::Counter => 1 + en + rst,
            DefId::Ram => 4,
            DefId::Rom => 1,
            DefId::Custom | DefId::InputPin => 0,
            DefId::OutputPin | DefId::SevenSeg => 1,
            DefId::Display => 4,
        }
    }
}


/// A pin definition as a value: name, column, row, width, direction.
pub open spec fn pin_v(p: PinDef) -> (Seq<char>, i32, i32, Width, Dir) {
    (p.name@, p.dx, p.dy, p.width, p.dir)
}

/// Pin definitions as values.
pub open spec fn pins_v(s: Seq<PinDef>) -> Seq<(Seq<char>, i32, i32, Width, Dir)> {
    Seq::new(s.len(), |i: int| pin_v(s[i]))
}

/// `n` pins named `prefix0..`, in column `x`, rows 0 to n - 1.
pub open spec fn row_spec(prefix: Seq<char>, n: nat, x: i32, w: Width, d: Dir) -> Seq<(Seq<char>, i32, i32, Width, Dir)> {
    Seq::new(n, |i: int| (prefix + decimal(i as nat), x, i as i32, w, d))
}

/// One pin, or none.
pub open spec fn opt_pin(on: bool, name: Seq<char>, x: i32, y: i32, w: Width, d: Dir) -> Seq<(Seq<char>, i32, i32, Width, Dir)> {
    if on {
        seq![(name, x, y, w, d)]
    } else {
        Seq::empty()
    }
}

/// Address width of a memory of the parameters' depth.
pub open spec fn addr_width(p: Params) -> Width {
    bits_needed_spec(if p.depth >= 2 { p.depth as u32 } else { 2 })
}

/// The pin layout of each kind: name, column, row, width and direction of
/// every pin, inputs first (column 0), outputs after (column 2).
pub open spec fn layout_spec(d: DefId, p: Params) -> Seq<(Seq<char>, i32, i32, Width, Dir)> {
    let w = p.width;
    let n = fan_in(p);
    let mid = ((n as int - 1) / 2) as i32;
    let lo = low_bits_spec(p);
    let hi: u8 = if w >= lo { (w - lo) as u8 } else { 0 };
    let i = Dir::In;
    let o = Dir::Out;
    match d {
        DefId::Not | DefId::Buffer => seq![("A"@, 0i32, 0i32, w, i), ("Y"@, 2i32, 0i32, w, o)],
        DefId::And | DefId::Or | DefId::Nand | DefId::Nor | DefId::Xor | DefId::Xnor => row_spec("A"@, n, 0, w, i).push(
            ("Y"@, 2i32, mid, w, o),
        ),
        DefId::Button | DefId::Switch | DefId::Constant => seq![("Q"@, 2i32, 0i32, w, o)],
        DefId::Clock => seq![("CLK"@, 2i32, 0i32, 1u8, o)],
        DefId::Led => seq![("D"@, 0i32, 0i32, w, i)],
        DefId::Splitter => seq![("D"@, 0i32, 0i32, w, i), ("LO"@, 2i32, 0i32, lo, o), ("HI"@, 2i32, 2i32, hi, o)],
        DefId::Merger => seq![("LO"@, 0i32, 0i32, lo, i), ("HI"@, 0i32, 2i32, hi, i), ("Y"@, 2i32, 1i32, w, o)],
        DefId::Mux => row_spec("D"@, n, 0, w, i) + seq![
            ("S"@, 0i32, n as i32, bits_needed_spec(n as u32), i),
            ("Y"@, 2i32, mid, w, o),
        ],
        DefId::Decoder => seq![("A"@, 0i32, 0i32, bits_needed_spec(decoder_outs(p) as u32), i)] + row_spec(
            "Y"@,
            decoder_outs(p),
            2,
            1,
            o,
        ),
        DefId::PriorityEncoder => row_spec("A"@, n, 0, 1, i) + seq![
            ("IDX"@, 2i32, 0i32, bits_needed_spec(n as u32), o),
            ("VALID"@, 2i32, 1i32, 1u8, o),
        ],
        DefId::HalfAdder => seq![
            ("A"@, 0i32, 0i32, 1u8, i),
            ("B"@, 0i32, 1i32, 1u8, i),
            ("S"@, 2i32, 0i32, 1u8, o),
            ("C"@, 2i32, 1i32, 1u8, o),
        ],
        DefId::FullAdder => seq![
            ("A"@, 0i32, 0i32, 1u8, i),
            ("B"@, 0i32, 1i32, 1u8, i),
            ("CI"@, 0i32, 2i32, 1u8, i),
            ("S"@, 2i32, 0i32, 1u8, o),
            ("CO"@, 2i32, 1i32, 1u8, o),
        ],
        DefId::Adder | DefId::Subtractor => {
            let carry = has_opt(p, OPT_CARRY);
            let cin = if d == DefId::Adder { "CI"@ } else { "BI"@ };
            let cout = if d == DefId::Adder { "CO"@ } else { "BO"@ };
            seq![("A"@, 0i32, 0i32, w, i), ("B"@, 0i32, 1i32, w, i)] + opt_pin(carry, cin, 0, 2, 1, i) + seq![
                ("S"@, 2i32, 0i32, w, o),
            ] + opt_pin(carry, cout, 2, 1, 1, o)
        },
        DefId::Multiplier => seq![("A"@, 0i32, 0i32, w, i), ("B"@, 0i32, 1i32, w, i), ("P"@, 2i32, 0i32, w, o)],
        DefId::Comparator => seq![
            ("A"@, 0i32, 0i32, w, i),
            ("B"@, 0i32, 1i32, w, i),
            ("EQ"@, 2i32, 0i32, 1u8, o),
            ("LT"@, 2i32, 1i32, 1u8, o),
            ("LTU"@, 2i32, 2i32, 1u8, o),
        ],
        DefId::Shifter => seq![
            ("A"@, 0i32, 0i32, w, i),
            ("SH"@, 0i32, 1i32, bits_needed_spec(w as u32), i),
            ("Y"@, 2i32, 0i32, w, o),
        ],
        DefId::Alu => seq![
            ("A"@, 0i32, 0i32, w, i),
            ("B"@, 0i32, 1i32, w, i),
            ("OP"@, 0i32, 2i32, 4u8, i),
            ("Y"@, 2i32, 0i32, w, o),
        ],
        DefId::Dff | DefId::Register => {
            let dw: u8 = if d == DefId::Dff { 1 } else { w };
            seq![("D"@, 0i32, 0i32, dw, i), ("CLK"@, 0i32, 1i32, 1u8, i)] + opt_pin(has_opt(p, OPT_ENABLE), "EN"@, 0, 2, 1, i)
                + opt_pin(has_opt(p, OPT_RESET), "RST"@, 0, 3, 1, i) + seq![("Q"@, 2i32, 1i32, dw, o)]
        },
        DefId::Counter => seq![("CLK"@, 0i32, 0i32, 1u8, i)] + opt_pin(has_opt(p, OPT_ENABLE), "EN"@, 0, 1, 1, i) + opt_pin(
            has_opt(p, OPT_RESET),
            "RST"@,
            0,
            2,
            1,
            i,
        ) + seq![("Q"@, 2i32, 0i32, w, o)],
        DefId::Ram => seq![
            ("ADDR"@, 0i32, 0i32, addr_width(p), i),
            ("DIN"@, 0i32, 1i32, w, i),
            ("WE"@, 0i32, 2i32, 1u8, i),
            ("CLK"@, 0i32, 3i32, 1u8, i),
            ("DOUT"@, 2i32, 1i32, w, o),
        ],
        DefId::Rom => seq![("ADDR"@, 0i32, 0i32, addr_width(p), i), ("DOUT"@, 2i32, 0i32, w, o)],
        DefId::InputPin => seq![("Y"@, 2i32, 0i32, w, o)],
        DefId::OutputPin => seq![("A"@, 0i32, 0i32, w, i)],
        DefId::SevenSeg => seq![("D"@, 0i32, 0i32, w, i)],
        DefId::Display => seq![
            ("DATA"@, 0i32, 0i32, w, i),
            ("ADDR"@, 0i32, 1i32, addr_width(p), i),
            ("WE"@, 0i32, 2i32, 1u8, i),
            ("CLK"@, 0i32, 3i32, 1u8, i),
        ],
        DefId::Custom => Seq::empty(),
    }
}

/// Every pin sits in the first three columns and the first 257 rows.
pub open spec fn compact_layout(pins: Seq<PinDef>) -> bool {
    forall|i: int| 0 <= i < pins.len() ==> 0 <= (#[trigger] pins[i]).dx <= 2 && 0 <= pins[i].dy <= 256
}

/// Appends `n` pins named `prefix0..`, at column `x`, rows 0..n.
fn push_row(v: &mut Vec<PinDef>, prefix: &str, n: i32, x: i32, w: Width, dir: Dir)
    requires
        0 <= n,
    ensures
        final(v)@.len() == old(v)@.len() + n,
        forall|i: int| 0 <= i < old(v)@.len() ==> final(v)@[i] == old(v)@[i],
        forall|i: int| old(v)@.len() <= i < final(v)@.len() ==> (#[trigger] final(v)@[i]).dir == dir,
        forall|i: int|
            old(v)@.len() <= i < final(v)@.len() ==> (#[trigger] final(v)@[i]).dx == x && 0
                <= final(v)@[i].dy < n,
        pins_v(final(v)@) == pins_v(old(v)@) + row_spec(prefix@, n as nat, x, w, dir),
{
    let ghost start = v@.len();
    let mut i: i32 = 0;
    while i < n
        invariant
            0 <= i <= n,
            v@.len() == start + i,
            start == old(v)@.len(),
            forall|j: int| 0 <= j < start ==> v@[j] == old(v)@[j],
            forall|j: int| start <= j < v@.len() ==> (#[trigger] v@[j]).dir == dir,
            forall|j: int| start <= j < v@.len() ==> (#[trigger] v@[j]).dx == x && 0 <= v@[j].dy < i,
            pins_v(v@) == pins_v(old(v)@) + row_spec(prefix@, i as nat, x, w, dir),
        decreases n - i,
    {
        let name = indexed_name(prefix, i as u64);
        let ghost v0 = v@;
        v.push(named_pin(name, x, i, w, dir));
        proof {
            assert(pins_v(v@) =~= pins_v(old(v)@) + row_spec(prefix@, (i + 1) as nat, x, w, dir)) by {
                assert(pins_v(v@) =~= pins_v(v0).push(pin_v(v@[v@.len() - 1])));
            }
        }
        i = i + 1;
    }
}

impl DefId {
    /// Pin layout of an instance: inputs first, then outputs.
    #[verifier::rlimit(100)]
    #[verifier::spinoff_prover]
    pub fn pins(self, p: &Params) -> (v: Vec<PinDef>)
        ensures
            v@.len() == in_count_spec(self, *p) + out_count_spec(self, *p),
            grouped(v@, in_count_spec(self, *p)),
            compact_layout(v@),
            pins_v(v@) == layout_spec(self, *p),
    {
        let w = p.width;
        let n: i32 = if p.inputs >= 2 { p.inputs as i32 } else { 2 };
        let ins = Dir::In;
        let out = Dir::Out;
        let mut v: Vec<PinDef> = Vec::new();
        match self {
            DefId::Not | DefId::Buffer => {
                v.push(pin("A", 0, 0, w, ins));
                v.push(pin("Y", 2, 0, w, out));
            },
            DefId::And | DefId::Or | DefId::Nand | DefId::Nor | DefId::Xor | DefId::Xnor => {
                push_row(&mut v, "A", n, 0, w, ins);
                v.push(pin("Y", 2, (n - 1) / 2, w, out));
            },
            DefId::Button | DefId::Switch | DefId::Constant => {
                v.push(pin("Q", 2, 0, w, out));
            },
            DefId::Clock => {
                v.push(pin("CLK", 2, 0, 1, out));
            },
            DefId::Led => {
                v.push(pin("D", 0, 0, w, ins));
            },
            DefId::Splitter => {
                let lo = low_bits(p);
                let hi: u8 = if w >= lo { w - lo } else { 0 };
                v.push(pin("D", 0, 0, w, ins));
                v.push(pin("LO", 2, 0, lo, out));
                v.push(pin("HI", 2, 2, hi, out));
            },
            DefId::Merger => {
                let lo = low_bits(p);
                let hi: u8 = if w >= lo { w - lo } else { 0 };
                v.push(pin("LO", 0, 0, lo, ins));
                v.push(pin("HI", 0, 2, hi, ins));
                v.push(pin("Y", 2, 1, w, out));
            },
            DefId::Mux => {
                let sel_w = bits_needed(n as u32);
                push_row(&mut v, "D", n, 0, w, ins);
                v.push(pin("S", 0, n, sel_w, ins));
                v.push(pin("Y", 2, (n - 1) / 2, w, out));
            },
            DefId::Decoder => {
                let nout = self.out_count(p);
                proof {
                    lemma_decoder_outs(*p);
                }
                v.push(pin("A", 0, 0, bits_needed(nout as u32), ins));
                push_row(&mut v, "Y", nout as i32, 2, 1, out);
            },
            DefId::PriorityEncoder => {
                push_row(&mut v, "A", n, 0, 1, ins);
                v.push(pin("IDX", 2, 0, bits_needed(n as u32), out));
                v.push(pin("VALID", 2, 1, 1, out));
            },
            DefId::HalfAdder => {
                v.push(pin("A", 0, 0, 1, ins));
                v.push(pin("B", 0, 1, 1, ins));
                v.push(pin("S", 2, 0, 1, out));
                v.push(pin("C", 2, 1, 1, out));
            },
            DefId::FullAdder => {
                v.push(pin("A", 0, 0, 1, ins));
                v.push(pin("B", 0, 1, 1, ins));
                v.push(pin("CI", 0, 2, 1, ins));
                v.push(pin("S", 2, 0, 1, out));
                v.push(pin("CO", 2, 1, 1, out));
            },
            DefId::Adder | DefId::Subtractor => {
                let carry = p.opts & OPT_CARRY != 0;
                let adder = self == DefId::Adder;
                v.push(pin("A", 0, 0, w, ins));
                v.push(pin("B", 0, 1, w, ins));
                if carry {
                    v.push(pin(if adder { "CI" } else { "BI" }, 0, 2, 1, ins));
                }
                v.push(pin("S", 2, 0, w, out));
                if carry {
                    v.push(pin(if adder { "CO" } else { "BO" }, 2, 1, 1, out));
                }
            },
            DefId::Multiplier => {
                v.push(pin("A", 0, 0, w, ins));
                v.push(pin("B", 0, 1, w, ins));
                v.push(pin("P", 2, 0, w, out));
            },
            DefId::Comparator => {
                v.push(pin("A", 0, 0, w, ins));
                v.push(pin("B", 0, 1, w, ins));
                v.push(pin("EQ", 2, 0, 1, out));
                v.push(pin("LT", 2, 1, 1, out));
                v.push(pin("LTU", 2, 2, 1, out));
            },
            DefId::Shifter => {
                v.push(pin("A", 0, 0, w, ins));
                v.push(pin("SH", 0, 1, bits_needed(w as u32), ins));
                v.push(pin("Y", 2, 0, w, out));
            },
            DefId::Alu => {
                v.push(pin("A", 0, 0, w, ins));
                v.push(pin("B", 0, 1, w, ins));
                v.push(pin("OP", 0, 2, 4, ins));
                v.push(pin("Y", 2, 0, w, out));
            },
            DefId::Dff | DefId::Register => {
                let dw: u8 = if self == DefId::Dff { 1 } else { w };
                v.push(pin("D", 0, 0, dw, ins));
                v.push(pin("CLK", 0, 1, 1, ins));
                if p.opts & OPT_ENABLE != 0 {
                    v.push(pin("EN", 0, 2, 1, ins));
                }
                if p.opts & OPT_RESET != 0 {
                    v.push(pin("RST", 0, 3, 1, ins));
                }
                v.push(pin("Q", 2, 1, dw, out));
            },
            DefId::Counter => {
                v.push(pin("CLK", 0, 0, 1, ins));
                if p.opts & OPT_ENABLE != 0 {
                    v.push(pin("EN", 0, 1, 1, ins));
                }
                if p.opts & OPT_RESET != 0 {
                    v.push(pin("RST", 0, 2, 1, ins));
                }
                v.push(pin("Q", 2, 0, w, out));
            },
            DefId::Ram => {
                let aw = bits_needed(if p.depth >= 2 { p.depth as u32 } else { 2 });
                v.push(pin("ADDR", 0, 0, aw, ins));
                v.push(pin("DIN", 0, 1, w, ins));
                v.push(pin("WE", 0, 2, 1, ins));
                v.push(pin("CLK", 0, 3, 1, ins));
                v.push(pin("DOUT", 2, 1, w, out));
            },
            DefId::Rom => {
                let aw = bits_needed(if p.depth >= 2 { p.depth as u32 } else { 2 });
                v.push(pin("ADDR", 0, 0, aw, ins));
                v.push(pin("DOUT", 2, 0, w, out));
            },
            DefId::InputPin => v.push(pin("Y", 2, 0, w, out)),
            DefId::OutputPin => v.push(pin("A", 0, 0, w, ins)),
            DefId::SevenSeg => v.push(pin("D", 0, 0, w, ins)),
            DefId::Display => {
                let aw = bits_needed(if p.depth >= 2 { p.depth as u32 } else { 2 });
                v.push(pin("DATA", 0, 0, w, ins));
                v.push(pin("ADDR", 0, 1, aw, ins));
                v.push(pin("WE", 0, 2, 1, ins));
                v.push(pin("CLK", 0, 3, 1, ins));
            },
            DefId::Custom => {},
        }
        v
    }
}


// ---------------------------------------------------------------------------
// Instance state
// ---------------------------------------------------------------------------

/// Private state of an instance. Never an output: outputs always go through
/// the engine's staging area.
#[derive(Debug)]
pub struct CompState {
    /// Latched value (D flip-flop / register).
    pub reg: u32,
    /// Clock level seen on the previous tick, for rising-edge detection.
    pub prev_clk: u8,
    /// Counter value (also the clock's phase counter).
    pub cnt: u32,
    /// RAM / ROM / display contents.
    pub mem: Vec<u32>,
}

impl Default for CompState {
    fn default() -> (r: Self)
        ensures
            r.reg == 0,
            r.prev_clk == 0,
            r.cnt == 0,
            r.mem@ == Seq::<u32>::empty(),
    {
        CompState { reg: 0, prev_clk: 0, cnt: 0, mem: Vec::new() }
    }
}

/// Memory contents initialised from `init`, zero-padded (or cut) to `depth` words.
pub open spec fn mem_init_spec(init: Seq<u32>, depth: u16) -> Seq<u32> {
    Seq::new(depth as nat, |i: int| if i < init.len() { init[i] } else { 0u32 })
}

impl CompState {
    /// A power-on state whose memory holds `init` (zero padded / cut to `depth`).
    pub fn with_mem(init: &[u32], depth: u16) -> (r: Self)
        ensures
            r.reg == 0,
            r.prev_clk == 0,
            r.cnt == 0,
            r.mem@ == mem_init_spec(init@, depth),
    {
        let mut mem: Vec<u32> = Vec::new();
        let d = depth as usize;
        let mut i: usize = 0;
        while i < d
            invariant
                d == depth as usize,
                i <= d,
                mem@.len() == i,
                forall|j: int| 0 <= j < i ==> mem@[j] == mem_init_spec(init@, depth)[j],
            decreases d - i,
        {
            if i < init.len() {
                mem.push(init[i]);
            } else {
                mem.push(0);
            }
            i = i + 1;
        }
        assert(mem@ =~= mem_init_spec(init@, depth));
        CompState { reg: 0, prev_clk: 0, cnt: 0, mem }
    }

    /// A copy of the state.
    pub fn duplicate(&self) -> (r: Self)
        ensures
            r.reg == self.reg,
            r.prev_clk == self.prev_clk,
            r.cnt == self.cnt,
            r.mem@ == self.mem@,
    {
        CompState { reg: self.reg, prev_clk: self.prev_clk, cnt: self.cnt, mem: self.mem.clone() }
    }
}

// ---------------------------------------------------------------------------
// Evaluation: specification
// ---------------------------------------------------------------------------

/// A value cut to `w` bits.
pub open spec fn cut(x: NetValue, w: u8) -> NetValue {
    NetValue { val: low(x.val, w), unk: low(x.unk, w) }
}

/// A known value of `w` bits.
pub open spec fn known(v: u32, w: u8) -> NetValue {
    NetValue { val: low(v, w), unk: 0 }
}

/// A known single bit.
pub open spec fn bitv(b: bool) -> NetValue {
    NetValue { val: if b { 1 } else { 0 }, unk: 0 }
}

pub open spec fn zero_v() -> NetValue {
    NetValue { val: 0, unk: 0 }
}

/// Whether bit 0 of a value is a known one.
pub open spec fn high(x: NetValue) -> bool {
    x.bit_at(0) == Bit::One
}

/// Rising-edge detection: (edge seen, new remembered level).
pub open spec fn rising_spec(clk: NetValue, prev: u8) -> (bool, u8) {
    let cur: u8 = if high(clk) { 1 } else { 0 };
    (prev == 0 && cur == 1, cur)
}

/// Bitwise operation of an n-input gate.
pub open spec fn gate_op(d: DefId, a: u32, b: u32) -> u32 {
    if d == DefId::And || d == DefId::Nand {
        a & b
    } else if d == DefId::Or || d == DefId::Nor {
        a | b
    } else if d == DefId::Xor || d == DefId::Xnor {
        a ^ b
    } else {
        a
    }
}

/// Gate fold over the first `k` inputs (each cut to `w` bits):
/// (combined value bits, union of unknown bits).
pub open spec fn gate_fold(d: DefId, ins: Seq<NetValue>, w: u8, k: nat) -> (u32, u32)
    decreases k,
{
    if k <= 1 {
        let f = if ins.len() > 0 { cut(ins[0], w) } else { zero_v() };
        (f.val, f.unk)
    } else {
        let (v, u) = gate_fold(d, ins, w, (k - 1) as nat);
        let x = cut(ins[k - 1], w);
        (gate_op(d, v, x.val), u | x.unk)
    }
}

/// Output of a gate: NOT / buffer use their first input; n-input gates fold
/// all inputs (an unknown input bit makes the output bit unknown) and the
/// inverting kinds complement the result.
pub open spec fn gate_spec(d: DefId, p: Params, ins: Seq<NetValue>) -> NetValue {
    let w = p.width;
    let m = mask(w);
    if d == DefId::Not || d == DefId::Buffer {
        let a = if ins.len() > 0 { cut(ins[0], w) } else { zero_v() };
        if d == DefId::Not { NetValue { val: !a.val & m, unk: a.unk } } else { a }
    } else {
        let (v, u) = gate_fold(d, ins, w, ins.len());
        let v2 = if d == DefId::Nand || d == DefId::Nor || d == DefId::Xnor { !v & m } else { v };
        NetValue { val: v2 & m, unk: u }
    }
}

pub open spec fn shr32(v: u32, k: u8) -> u32 {
    if k >= 32 { 0 } else { v >> (k as u32) }
}

pub open spec fn shl32(v: u32, k: u8) -> u32 {
    if k >= 32 { 0 } else { v << (k as u32) }
}

/// Index of the first input whose bit 0 is a known one, among the first `k`.
pub open spec fn first_high(ins: Seq<NetValue>, k: nat) -> Option<nat>
    decreases k,
{
    if k == 0 {
        None
    } else {
        match first_high(ins, (k - 1) as nat) {
            Some(j) => Some(j),
            None => if high(ins[k - 1]) { Some((k - 1) as nat) } else { None },
        }
    }
}

/// Outputs of the routing kinds.
pub open spec fn routing_spec(d: DefId, p: Params, ins: Seq<NetValue>, n: nat) -> Seq<NetValue> {
    let w = p.width;
    let lo = low_bits_spec(p);
    let hiw: u8 = if w >= lo { (w - lo) as u8 } else { 0 };
    if d == DefId::Splitter {
        let a = ins[0];
        seq![
            NetValue { val: a.val & mask(lo), unk: a.unk & mask(lo) },
            NetValue { val: shr32(a.val, lo) & mask(hiw), unk: shr32(a.unk, lo) & mask(hiw) },
        ]
    } else if d == DefId::Merger {
        let (l, h) = (ins[0], ins[1]);
        seq![
            NetValue {
                val: (l.val & mask(lo)) | shl32(h.val & mask(hiw), lo),
                unk: (l.unk & mask(lo)) | shl32(h.unk & mask(hiw), lo),
            },
        ]
    } else if d == DefId::Mux {
        let k = fan_in(p);
        let sel = low(ins[k as int].val, bits_needed_spec(k as u32));
        seq![if sel < k { cut(ins[sel as int], w) } else { NetValue { val: 0, unk: mask(w) } }]
    } else if d == DefId::Decoder {
        let a = ins[0];
        if a.unk != 0 {
            Seq::new(n, |i: int| NetValue { val: 0, unk: mask(1) })
        } else {
            let idx = low(a.val, bits_needed_spec(n as u32));
            Seq::new(n, |i: int| bitv(i == idx))
        }
    } else {
        let f = first_high(ins, ins.len());
        let idx: u32 = match f { Some(j) => j as u32, None => 0 };
        seq![known(idx, bits_needed_spec(ins.len() as u32)), bitv(f is Some)]
    }
}

/// The ALU operation table.
pub open spec fn alu_spec(a: u32, b: u32, op: u32, w: u8) -> u32 {
    if op == 0 { add_spec(a, b, 0, w).0 }
    else if op == 1 { sub_spec(a, b, 0, w).0 }
    else if op == 2 { a & b }
    else if op == 3 { a | b }
    else if op == 4 { a ^ b }
    else if op == 5 { !a & mask(w) }
    else if op == 6 { a }
    else if op == 7 { b }
    else if op == 8 { shl_spec(a, b & 31, w) }
    else if op == 9 { shr_spec(a, b & 31, w) }
    else if op == 10 { sar_spec(a, b & 31, w) }
    else if op == 11 { mul_spec(a, b, w) }
    else { 0 }
}

/// Outputs of the arithmetic kinds.
pub open spec fn arith_spec(d: DefId, p: Params, ins: Seq<NetValue>, n: nat) -> Seq<NetValue> {
    let w = p.width;
    if d == DefId::HalfAdder {
        let (a, b) = (high(ins[0]), high(ins[1]));
        seq![bitv(a != b), bitv(a && b)]
    } else if d == DefId::FullAdder {
        let a: u32 = if high(ins[0]) { 1 } else { 0 };
        let b: u32 = if high(ins[1]) { 1 } else { 0 };
        let c: u32 = if high(ins[2]) { 1 } else { 0 };
        let (s, co) = add_spec(a, b, c, 1);
        seq![known(s, 1), known(co, 1)]
    } else if d == DefId::Adder || d == DefId::Subtractor {
        let c: u32 = if has_opt(p, OPT_CARRY) && high(ins[2]) { 1 } else { 0 };
        let (s, co) = if d == DefId::Adder {
            add_spec(low(ins[0].val, w), low(ins[1].val, w), c, w)
        } else {
            sub_spec(low(ins[0].val, w), low(ins[1].val, w), c, w)
        };
        if n > 1 { seq![known(s, w), known(co, 1)] } else { seq![known(s, w)] }
    } else if d == DefId::Multiplier {
        seq![known(mul_spec(low(ins[0].val, w), low(ins[1].val, w), w), w)]
    } else if d == DefId::Comparator {
        let (a, b) = (low(ins[0].val, w), low(ins[1].val, w));
        seq![bitv(a == b), bitv(signed_spec(a, w) < signed_spec(b, w)), bitv(a < b)]
    } else if d == DefId::Shifter {
        let a = low(ins[0].val, w);
        let sh = low(ins[1].val, bits_needed_spec(w as u32));
        let mode = if p.value <= 2 { p.value } else { 2 };
        let y = if mode == 0 { shl_spec(a, sh, w) } else if mode == 1 { shr_spec(a, sh, w) } else {
            sar_spec(a, sh, w)
        };
        seq![known(y, w)]
    } else {
        let (a, b) = (low(ins[0].val, w), low(ins[1].val, w));
        seq![known(alu_spec(a, b, low(ins[2].val, 4), w), w)]
    }
}

/// Sequential kinds (D flip-flop, register, counter):
/// (output, latched value, clock level, counter).
/// Reset wins over the clock edge; enable gates the edge.
pub open spec fn reg_spec(d: DefId, p: Params, ins: Seq<NetValue>, reg: u32, prev: u8, cnt: u32) -> (
    NetValue,
    u32,
    u8,
    u32,
) {
    let w: u8 = if d == DefId::Dff { 1 } else { p.width };
    let counter = d == DefId::Counter;
    let (edge, prev2) = rising_spec(if counter { ins[0] } else { ins[1] }, prev);
    let k0: int = if counter { 1 } else { 2 };
    let en = if has_opt(p, OPT_ENABLE) { ins[k0].bit_at(0) != Bit::Zero } else { true };
    let k1: int = if has_opt(p, OPT_ENABLE) { k0 + 1 } else { k0 };
    let rst = if has_opt(p, OPT_RESET) { high(ins[k1]) } else { false };
    let (reg2, cnt2) = if rst {
        if counter { (reg, 0u32) } else { (0u32, cnt) }
    } else if edge && en {
        if counter {
            (reg, low(((cnt as nat + 1) % 0x1_0000_0000) as u32, p.width))
        } else {
            (low(ins[0].val, w), cnt)
        }
    } else {
        (reg, cnt)
    };
    let out = if counter { known(cnt2, p.width) } else { known(reg2, w) };
    (out, reg2, prev2, cnt2)
}

/// Memories: (output, clock level, contents). A RAM writes on a rising
/// clock edge with write enable; both read combinationally.
pub open spec fn mem_spec(d: DefId, p: Params, ins: Seq<NetValue>, prev: u8, mem: Seq<u32>) -> (
    NetValue,
    u8,
    Seq<u32>,
) {
    let aw = bits_needed_spec(if p.depth >= 2 { p.depth as u32 } else { 2 });
    let addr = low(ins[0].val, aw) as int;
    let (prev2, mem2) = if d == DefId::Ram {
        let (edge, pc) = rising_spec(ins[3], prev);
        if edge && high(ins[2]) && addr < mem.len() {
            (pc, mem.update(addr, low(ins[1].val, p.width)))
        } else {
            (pc, mem)
        }
    } else {
        (prev, mem)
    };
    let out = if addr < mem2.len() { known(mem2[addr], p.width) } else { zero_v() };
    (out, prev2, mem2)
}

/// Clock: low for `low` ticks, then high for `high` ticks: (output, phase counter).
pub open spec fn clock_spec(p: Params, cnt: u32) -> (NetValue, u32) {
    let period = p.high as nat + p.low as nat;
    if period == 0 {
        (zero_v(), cnt)
    } else {
        (bitv(cnt as nat % period >= p.low), ((cnt as nat + 1) % 0x1_0000_0000) as u32)
    }
}

/// Display frame buffer: on a rising clock edge with write enable, row
/// `ADDR mod rows` takes the data cut to the width: (clock level, contents).
pub open spec fn display_spec(p: Params, ins: Seq<NetValue>, prev: u8, mem: Seq<u32>) -> (u8, Seq<u32>) {
    let (edge, pc) = rising_spec(ins[3], prev);
    if !edge || !high(ins[2]) {
        (pc, mem)
    } else {
        let rows: nat = if p.depth >= 2 { p.depth as nat } else { 2 };
        let grown = if mem.len() < rows { mem + Seq::new((rows - mem.len()) as nat, |i: int| 0u32) } else { mem };
        (pc, grown.update((ins[1].val as nat % rows) as int, low(ins[0].val, p.width)))
    }
}

/// One evaluation: (outputs, latched value, clock level, counter, memory).
pub open spec fn step_spec(
    d: DefId,
    p: Params,
    ins: Seq<NetValue>,
    reg: u32,
    prev: u8,
    cnt: u32,
    mem: Seq<u32>,
    outs: Seq<NetValue>,
) -> (Seq<NetValue>, u32, u8, u32, Seq<u32>) {
    let n = outs.len();
    match d {
        DefId::Not | DefId::Buffer | DefId::And | DefId::Or | DefId::Nand | DefId::Nor | DefId::Xor
        | DefId::Xnor => (seq![gate_spec(d, p, ins)], reg, prev, cnt, mem),
        DefId::Constant | DefId::Switch | DefId::Button => (
            seq![known(p.value, p.width)],
            reg,
            prev,
            cnt,
            mem,
        ),
        DefId::Clock => {
            let (o, c) = clock_spec(p, cnt);
            (seq![o], reg, prev, c, mem)
        },
        DefId::Splitter | DefId::Merger | DefId::Mux | DefId::Decoder | DefId::PriorityEncoder => (
            routing_spec(d, p, ins, n),
            reg,
            prev,
            cnt,
            mem,
        ),
        DefId::HalfAdder | DefId::FullAdder | DefId::Adder | DefId::Subtractor | DefId::Multiplier
        | DefId::Comparator | DefId::Shifter | DefId::Alu => (
            arith_spec(d, p, ins, n),
            reg,
            prev,
            cnt,
            mem,
        ),
        DefId::Dff | DefId::Register | DefId::Counter => {
            let (o, r2, p2, c2) = reg_spec(d, p, ins, reg, prev, cnt);
            (seq![o], r2, p2, c2, mem)
        },
        DefId::Ram | DefId::Rom => {
            let (o, p2, m2) = mem_spec(d, p, ins, prev, mem);
            (seq![o], reg, p2, cnt, m2)
        },
        DefId::Display => {
            let (p2, m2) = display_spec(p, ins, prev, mem);
            (Seq::empty(), reg, p2, cnt, m2)
        },
        _ => (outs, reg, prev, cnt, mem),
    }
}


// ---------------------------------------------------------------------------
// Evaluation
// ---------------------------------------------------------------------------

/// Rising-edge detection; remembers this tick's clock level.
fn rising(clk: NetValue, st: &mut CompState) -> (edge: bool)
    ensures
        (edge, final(st).prev_clk) == rising_spec(clk, old(st).prev_clk),
        final(st).reg == old(st).reg,
        final(st).cnt == old(st).cnt,
        final(st).mem@ == old(st).mem@,
{
    let cur: u8 = if clk.bit(0) == Bit::One { 1 } else { 0 };
    let edge = st.prev_clk == 0 && cur == 1;
    st.prev_clk = cur;
    edge
}

fn shr32_exec(v: u32, k: u8) -> (r: u32)
    ensures
        r == shr32(v, k),
{
    if k >= 32 {
        0
    } else {
        v >> (k as u32)
    }
}

fn shl32_exec(v: u32, k: u8) -> (r: u32)
    ensures
        r == shl32(v, k),
{
    if k >= 32 {
        0
    } else {
        v << (k as u32)
    }
}

fn gate_op_exec(d: DefId, a: u32, b: u32) -> (r: u32)
    ensures
        r == gate_op(d, a, b),
{
    if d == DefId::And || d == DefId::Nand {
        a & b
    } else if d == DefId::Or || d == DefId::Nor {
        a | b
    } else if d == DefId::Xor || d == DefId::Xnor {
        a ^ b
    } else {
        a
    }
}

fn eval_gate(d: DefId, p: &Params, ins: &[NetValue], outs: &mut Vec<NetValue>)
    requires
        old(outs)@.len() == 1,
    ensures
        final(outs)@ == seq![gate_spec(d, *p, ins@)],
{
    let w = p.width;
    let m = width_mask(w);
    if d == DefId::Not || d == DefId::Buffer {
        let a = if ins.len() > 0 { ins[0].with_width(w) } else { NetValue::zero() };
        let o = if d == DefId::Not { NetValue::new(!a.val & m, a.unk) } else { a };
        outs.set(0, o);
        assert(outs@ =~= seq![gate_spec(d, *p, ins@)]);
        return;
    }
    let first = if ins.len() > 0 { ins[0].with_width(w) } else { NetValue::zero() };
    let mut val = first.val;
    let mut unk = first.unk;
    let mut i: usize = 1;
    while i < ins.len()
        invariant
            1 <= i,
            i <= ins@.len() || i == 1,
            (val, unk) == gate_fold(d, ins@, w, i as nat),
        decreases ins@.len() - i,
    {
        let x = ins[i].with_width(w);
        unk = unk | x.unk;
        val = gate_op_exec(d, val, x.val);
        i = i + 1;
    }
    assert((val, unk) == gate_fold(d, ins@, w, ins@.len()));
    if d == DefId::Nand || d == DefId::Nor || d == DefId::Xnor {
        val = !val & m;
    }
    outs.set(0, NetValue::new(val & m, unk));
    assert(outs@ =~= seq![gate_spec(d, *p, ins@)]);
}

fn eval_routing(d: DefId, p: &Params, ins: &[NetValue], outs: &mut Vec<NetValue>)
    requires
        d == DefId::Splitter || d == DefId::Merger || d == DefId::Mux || d == DefId::Decoder || d
            == DefId::PriorityEncoder,
        ins@.len() == in_count_spec(d, *p),
        old(outs)@.len() == out_count_spec(d, *p),
    ensures
        final(outs)@ == routing_spec(d, *p, ins@, old(outs)@.len()),
{
    let w = p.width;
    let ghost n = outs@.len();
    if d == DefId::Splitter {
        let lo = low_bits(p);
        let hiw: u8 = if w >= lo { w - lo } else { 0 };
        let a = ins[0];
        let ml = width_mask(lo);
        let mh = width_mask(hiw);
        outs.set(0, NetValue::new(a.val & ml, a.unk & ml));
        outs.set(1, NetValue::new(shr32_exec(a.val, lo) & mh, shr32_exec(a.unk, lo) & mh));
        assert(outs@ =~= routing_spec(d, *p, ins@, n));
    } else if d == DefId::Merger {
        let lo = low_bits(p);
        let hiw: u8 = if w >= lo { w - lo } else { 0 };
        let (l, h) = (ins[0], ins[1]);
        let ml = width_mask(lo);
        let mh = width_mask(hiw);
        outs.set(
            0,
            NetValue::new(
                (l.val & ml) | shl32_exec(h.val & mh, lo),
                (l.unk & ml) | shl32_exec(h.unk & mh, lo),
            ),
        );
        assert(outs@ =~= routing_spec(d, *p, ins@, n));
    } else if d == DefId::Mux {
        let k: usize = if p.inputs >= 2 { p.inputs as usize } else { 2 };
        let sel_w = bits_needed(k as u32);
        let sel = ins[k].get(sel_w) as usize;
        let o = if sel < k { ins[sel].with_width(w) } else { NetValue::all_unknown(w) };
        outs.set(0, o);
        assert(outs@ =~= routing_spec(d, *p, ins@, n));
    } else if d == DefId::Decoder {
        proof {
            lemma_decoder_outs(*p);
        }
        let n_out = outs.len();
        let a = ins[0];
        if a.has_unknown() {
            let mut i: usize = 0;
            while i < n_out
                invariant
                    n_out == outs@.len(),
                    n_out == n,
                    i <= n_out,
                    forall|j: int| 0 <= j < i ==> outs@[j] == (NetValue { val: 0, unk: mask(1) }),
                decreases n_out - i,
            {
                outs.set(i, NetValue::all_unknown(1));
                i = i + 1;
            }
            assert(outs@ =~= routing_spec(d, *p, ins@, n));
        } else {
            let idx = a.get(bits_needed(n_out as u32));
            let mut i: usize = 0;
            while i < n_out
                invariant
                    n_out == outs@.len(),
                    n_out == n,
                    n <= 256,
                    i <= n_out,
                    idx == low(a.val, bits_needed_spec(n as u32)),
                    forall|j: int| 0 <= j < i ==> outs@[j] == bitv(j == idx),
                decreases n_out - i,
            {
                outs.set(i, NetValue::from_bit(i as u32 == idx));
                i = i + 1;
            }
            assert(outs@ =~= routing_spec(d, *p, ins@, n));
        }
    } else {
        let mut idx: u32 = 0;
        let mut valid = false;
        let mut i: usize = 0;
        while i < ins.len()
            invariant
                i <= ins@.len(),
                ins@.len() <= 255,
                valid == (first_high(ins@, i as nat) is Some),
                valid ==> idx as nat == first_high(ins@, i as nat)->0,
                !valid ==> idx == 0,
            decreases ins@.len() - i,
        {
            if !valid && ins[i].bit(0) == Bit::One {
                idx = i as u32;
                valid = true;
            }
            i = i + 1;
        }
        outs.set(0, NetValue::from_u32(idx, bits_needed(ins.len() as u32)));
        outs.set(1, NetValue::from_bit(valid));
        assert(outs@ =~= routing_spec(d, *p, ins@, n));
    }
}

fn alu_exec(a: u32, b: u32, op: u32, w: Width) -> (r: u32)
    ensures
        r == alu_spec(a, b, op, w),
{
    if op == 0 {
        add_wrap(a, b, 0, w).0
    } else if op == 1 {
        sub_wrap(a, b, 0, w).0
    } else if op == 2 {
        a & b
    } else if op == 3 {
        a | b
    } else if op == 4 {
        a ^ b
    } else if op == 5 {
        !a & width_mask(w)
    } else if op == 6 {
        a
    } else if op == 7 {
        b
    } else if op == 8 {
        shl(a, b & 31, w)
    } else if op == 9 {
        shr(a, b & 31, w)
    } else if op == 10 {
        sar(a, b & 31, w)
    } else if op == 11 {
        mul_wrap(a, b, w)
    } else {
        0
    }
}

fn eval_arith(d: DefId, p: &Params, ins: &[NetValue], outs: &mut Vec<NetValue>)
    requires
        d == DefId::HalfAdder || d == DefId::FullAdder || d == DefId::Adder || d
            == DefId::Subtractor || d == DefId::Multiplier || d == DefId::Comparator || d
            == DefId::Shifter || d == DefId::Alu,
        ins@.len() == in_count_spec(d, *p),
        old(outs)@.len() == out_count_spec(d, *p),
    ensures
        final(outs)@ == arith_spec(d, *p, ins@, old(outs)@.len()),
{
    let w = p.width;
    let ghost n = outs@.len();
    if d == DefId::HalfAdder {
        let a = ins[0].bit(0) == Bit::One;
        let b = ins[1].bit(0) == Bit::One;
        outs.set(0, NetValue::from_bit(a != b));
        outs.set(1, NetValue::from_bit(a && b));
    } else if d == DefId::FullAdder {
        let a: u32 = if ins[0].bit(0) == Bit::One { 1 } else { 0 };
        let b: u32 = if ins[1].bit(0) == Bit::One { 1 } else { 0 };
        let c: u32 = if ins[2].bit(0) == Bit::One { 1 } else { 0 };
        let (s, co) = add_wrap(a, b, c, 1);
        outs.set(0, NetValue::from_u32(s, 1));
        outs.set(1, NetValue::from_u32(co, 1));
    } else if d == DefId::Adder || d == DefId::Subtractor {
        let c: u32 = if p.opts & OPT_CARRY != 0 && ins[2].bit(0) == Bit::One { 1 } else { 0 };
        let (s, co) = if d == DefId::Adder {
            add_wrap(ins[0].get(w), ins[1].get(w), c, w)
        } else {
            sub_wrap(ins[0].get(w), ins[1].get(w), c, w)
        };
        outs.set(0, NetValue::from_u32(s, w));
        if outs.len() > 1 {
            outs.set(1, NetValue::from_u32(co, 1));
        }
    } else if d == DefId::Multiplier {
        outs.set(0, NetValue::from_u32(mul_wrap(ins[0].get(w), ins[1].get(w), w), w));
    } else if d == DefId::Comparator {
        let a = ins[0].get(w);
        let b = ins[1].get(w);
        outs.set(0, NetValue::from_bit(a == b));
        outs.set(1, NetValue::from_bit(to_signed(a, w) < to_signed(b, w)));
        outs.set(2, NetValue::from_bit(a < b));
    } else if d == DefId::Shifter {
        let a = ins[0].get(w);
        let sh = ins[1].get(bits_needed(w as u32));
        let mode = shift_mode(p);
        let y = if mode == 0 {
            shl(a, sh, w)
        } else if mode == 1 {
            shr(a, sh, w)
        } else {
            sar(a, sh, w)
        };
        outs.set(0, NetValue::from_u32(y, w));
    } else {
        let a = ins[0].get(w);
        let b = ins[1].get(w);
        let op = ins[2].get(4);
        outs.set(0, NetValue::from_u32(alu_exec(a, b, op, w), w));
    }
    assert(outs@ =~= arith_spec(d, *p, ins@, n));
}

fn eval_reg(d: DefId, p: &Params, ins: &[NetValue], st: &mut CompState, outs: &mut Vec<NetValue>)
    requires
        d == DefId::Dff || d == DefId::Register || d == DefId::Counter,
        ins@.len() == in_count_spec(d, *p),
        old(outs)@.len() == 1,
    ensures
        ({
            let (o, r2, p2, c2) = reg_spec(d, *p, ins@, old(st).reg, old(st).prev_clk, old(st).cnt);
            &&& final(outs)@ == seq![o]
            &&& final(st).reg == r2
            &&& final(st).prev_clk == p2
            &&& final(st).cnt == c2
            &&& final(st).mem@ == old(st).mem@
        }),
{
    let w: u8 = if d == DefId::Dff { 1 } else { p.width };
    let counter = d == DefId::Counter;
    let edge = if counter { rising(ins[0], st) } else { rising(ins[1], st) };
    let mut k: usize = if counter { 1 } else { 2 };
    let en = if p.opts & OPT_ENABLE != 0 {
        let v = ins[k].bit(0) != Bit::Zero;
        k = k + 1;
        v
    } else {
        true
    };
    let rst = if p.opts & OPT_RESET != 0 { ins[k].bit(0) == Bit::One } else { false };
    if rst {
        if counter {
            st.cnt = 0;
        } else {
            st.reg = 0;
        }
    } else if edge && en {
        if counter {
            let c1: u32 = if st.cnt == u32::MAX { 0 } else { st.cnt + 1 };
            proof {
                lemma_and_mask(c1, p.width);
            }
            st.cnt = c1 & width_mask(p.width);
        } else {
            st.reg = ins[0].get(w);
        }
    }
    let o = if counter { NetValue::from_u32(st.cnt, p.width) } else { NetValue::from_u32(st.reg, w) };
    outs.set(0, o);
    assert(outs@ =~= seq![o]);
}

fn eval_mem(d: DefId, p: &Params, ins: &[NetValue], st: &mut CompState, outs: &mut Vec<NetValue>)
    requires
        d == DefId::Ram || d == DefId::Rom,
        ins@.len() == in_count_spec(d, *p),
        old(outs)@.len() == 1,
    ensures
        ({
            let (o, p2, m2) = mem_spec(d, *p, ins@, old(st).prev_clk, old(st).mem@);
            &&& final(outs)@ == seq![o]
            &&& final(st).reg == old(st).reg
            &&& final(st).prev_clk == p2
            &&& final(st).cnt == old(st).cnt
            &&& final(st).mem@ == m2
        }),
{
    let w = p.width;
    let aw = bits_needed(if p.depth >= 2 { p.depth as u32 } else { 2 });
    let addr = ins[0].get(aw) as usize;
    if d == DefId::Ram {
        let edge = rising(ins[3], st);
        let we = ins[2].bit(0) == Bit::One;
        if edge && we && addr < st.mem.len() {
            st.mem.set(addr, ins[1].get(w));
        }
    }
    let o = if addr < st.mem.len() { NetValue::from_u32(st.mem[addr], w) } else { NetValue::zero() };
    outs.set(0, o);
    assert(outs@ =~= seq![o]);
}

fn eval_clock(p: &Params, st: &mut CompState, outs: &mut Vec<NetValue>)
    requires
        old(outs)@.len() == 1,
    ensures
        ({
            let (o, c2) = clock_spec(*p, old(st).cnt);
            &&& final(outs)@ == seq![o]
            &&& final(st).reg == old(st).reg
            &&& final(st).prev_clk == old(st).prev_clk
            &&& final(st).cnt == c2
            &&& final(st).mem@ == old(st).mem@
        }),
{
    let period: u32 = p.high as u32 + p.low as u32;
    if period == 0 {
        outs.set(0, NetValue::zero());
        assert(outs@ =~= seq![zero_v()]);
        return;
    }
    let phase = st.cnt % period;
    st.cnt = if st.cnt == u32::MAX { 0 } else { st.cnt + 1 };
    let o = NetValue::from_bit(phase >= p.low as u32);
    outs.set(0, o);
    assert(outs@ =~= seq![o]);
}

fn eval_display(p: &Params, ins: &[NetValue], st: &mut CompState)
    requires
        ins@.len() == 4,
    ensures
        ({
            let (p2, m2) = display_spec(*p, ins@, old(st).prev_clk, old(st).mem@);
            &&& final(st).reg == old(st).reg
            &&& final(st).prev_clk == p2
            &&& final(st).cnt == old(st).cnt
            &&& final(st).mem@ == m2
        }),
{
    let edge = rising(ins[3], st);
    let we = ins[2].bit(0);
    if !edge || we != Bit::One {
        assert(!edge || !high(ins@[2]));
        return;
    }
    assert(edge && high(ins@[2]));
    let rows: usize = if p.depth >= 2 { p.depth as usize } else { 2 };
    let ghost before = st.mem@;
    let ghost (reg0, prev0, cnt0) = (st.reg, st.prev_clk, st.cnt);
    let ghost rows_n: nat = if p.depth >= 2 { p.depth as nat } else { 2 };
    let ghost grown = if before.len() < rows_n {
        before + Seq::new((rows_n - before.len()) as nat, |i: int| 0u32)
    } else {
        before
    };
    assert(rows as nat == rows_n);
    if st.mem.len() < rows {
        let start = st.mem.len();
        while st.mem.len() < rows
            invariant
                start == before.len(),
                st.reg == reg0,
                st.prev_clk == prev0,
                st.cnt == cnt0,
                start <= st.mem@.len() <= rows,
                st.mem@.subrange(0, start as int) == before,
                forall|j: int| start <= j < st.mem@.len() ==> st.mem@[j] == 0,
            decreases rows - st.mem@.len(),
        {
            st.mem.push(0);
        }
        assert(st.mem@ =~= grown);
    } else {
        assert(st.mem@ =~= grown);
    }
    let x = ins[0].get(p.width);
    let a1 = ins[1].get(32);
    proof {
        lemma_span_bounds(32);
        vstd::arithmetic::power2::lemma2_to64();
        vstd::arithmetic::div_mod::lemma_small_mod(ins@[1].val as nat, 0x1_0000_0000);
    }
    assert(a1 == ins@[1].val);
    let addr = (a1 as usize) % rows;
    assert(addr as int == (ins@[1].val as nat % rows_n) as int);
    st.mem.set(addr, x);
    assert(st.mem@ =~= grown.update((ins@[1].val as nat % rows_n) as int, low(ins@[0].val, p.width)));
}

/// Evaluation entry: reads the inputs and the state, writes the outputs and
/// the next state. Expects exactly `in_count` inputs and `out_count` output slots.
pub fn eval(d: DefId, p: &Params, ins: &[NetValue], st: &mut CompState, outs: &mut Vec<NetValue>)
    requires
        ins@.len() == in_count_spec(d, *p),
        old(outs)@.len() == out_count_spec(d, *p),
    ensures
        ({
            let r = step_spec(d, *p, ins@, old(st).reg, old(st).prev_clk, old(st).cnt, old(st).mem@,
                old(outs)@);
            &&& final(outs)@ == r.0
            &&& final(st).reg == r.1
            &&& final(st).prev_clk == r.2
            &&& final(st).cnt == r.3
            &&& final(st).mem@ == r.4
        }),
{
    match d {
        DefId::Not | DefId::Buffer | DefId::And | DefId::Or | DefId::Nand | DefId::Nor | DefId::Xor
        | DefId::Xnor => eval_gate(d, p, ins, outs),
        DefId::Constant | DefId::Switch | DefId::Button => {
            let o = NetValue::from_u32(p.value, p.width);
            outs.set(0, o);
            assert(outs@ =~= seq![o]);
        },
        DefId::Clock => eval_clock(p, st, outs),
        DefId::Splitter | DefId::Merger | DefId::Mux | DefId::Decoder | DefId::PriorityEncoder => {
            eval_routing(d, p, ins, outs)
        },
        DefId::HalfAdder | DefId::FullAdder | DefId::Adder | DefId::Subtractor | DefId::Multiplier
        | DefId::Comparator | DefId::Shifter | DefId::Alu => eval_arith(d, p, ins, outs),
        DefId::Dff | DefId::Register | DefId::Counter => eval_reg(d, p, ins, st, outs),
        DefId::Ram | DefId::Rom => eval_mem(d, p, ins, st, outs),
        DefId::Display => eval_display(p, ins, st),
        DefId::Led | DefId::SevenSeg | DefId::OutputPin | DefId::InputPin | DefId::Custom => {},
    }
}

// ---------------------------------------------------------------------------
// Editable parameters: what a shell needs to build its controls.
// ---------------------------------------------------------------------------

/// Kind of control for a parameter.
#[derive(Clone, Debug, PartialEq, Eq)]
pub enum ParamKind {
    /// One of fixed values; with no labels the numbers themselves are shown.
    Choice { values: Vec<i64>, labels: Vec<&'static str> },
    /// An integer range.
    Int { min: i64, max: i64 },
    /// An on/off switch for one bit of `opts`.
    Bool { bit: u32 },
}

/// One editable parameter.
#[derive(Clone, Debug)]
pub struct ParamDesc {
    pub key: &'static str,
    pub label: &'static str,
    pub kind: ParamKind,
}

/// A parameter control as values: key, label, kind (0 choice, 1 range,
/// 2 flag), the choices and their labels, the range, the flag bit.
pub type ParamDescV = (Seq<char>, Seq<char>, u8, Seq<i64>, Seq<Seq<char>>, i64, i64, u32);

pub open spec fn desc_view(d: ParamDesc) -> ParamDescV {
    match d.kind {
        ParamKind::Choice { values, labels } => (d.key@, d.label@, 0u8, values@, labels@.map_values(|t: &'static str| t@), 0i64, 0i64, 0u32),
        ParamKind::Int { min, max } => (d.key@, d.label@, 1u8, Seq::empty(), Seq::empty(), min, max, 0u32),
        ParamKind::Bool { bit } => (d.key@, d.label@, 2u8, Seq::empty(), Seq::empty(), 0i64, 0i64, bit),
    }
}

/// The control of each parameter key.
pub open spec fn desc_spec(key: Seq<char>) -> ParamDescV {
    if key == "width"@ {
        ("width"@, "位宽"@, 0u8, seq![1i64, 4, 8, 16, 32], Seq::empty(), 0i64, 0i64, 0u32)
    } else if key == "inputs"@ {
        ("inputs"@, "输入数"@, 1u8, Seq::empty(), Seq::empty(), 2i64, 8i64, 0u32)
    } else if key == "value"@ {
        ("value"@, "值"@, 1u8, Seq::empty(), Seq::empty(), 0i64, 65535i64, 0u32)
    } else if key == "high"@ {
        ("high"@, "高电平拍数"@, 1u8, Seq::empty(), Seq::empty(), 1i64, 255i64, 0u32)
    } else if key == "low"@ {
        ("low"@, "低电平拍数"@, 1u8, Seq::empty(), Seq::empty(), 1i64, 255i64, 0u32)
    } else if key == "depth"@ {
        ("depth"@, "深度"@, 1u8, Seq::empty(), Seq::empty(), 2i64, 4096i64, 0u32)
    } else if key == "low_bits"@ {
        ("low_bits"@, "低段位宽"@, 1u8, Seq::empty(), Seq::empty(), 1i64, 31i64, 0u32)
    } else if key == "signed"@ {
        ("signed"@, "有符号比较"@, 2u8, Seq::empty(), Seq::empty(), 0i64, 0i64, OPT_SIGNED)
    } else if key == "enable"@ {
        ("enable"@, "使能引脚"@, 2u8, Seq::empty(), Seq::empty(), 0i64, 0i64, OPT_ENABLE)
    } else if key == "reset"@ {
        ("reset"@, "复位引脚"@, 2u8, Seq::empty(), Seq::empty(), 0i64, 0i64, OPT_RESET)
    } else if key == "carry"@ {
        ("carry"@, "进位引脚"@, 2u8, Seq::empty(), Seq::empty(), 0i64, 0i64, OPT_CARRY)
    } else {
        ("mode"@, "移位方向"@, 0u8, seq![0i64, 1, 2], seq!["左移"@, "逻辑右移"@, "算术右移"@], 0i64, 0i64, 0u32)
    }
}

/// The keys of the editable parameters of each kind, in display order.
pub open spec fn param_keys_of(d: DefId) -> Seq<Seq<char>> {
    match d {
        DefId::Clock => seq!["high"@, "low"@],
        DefId::Constant => seq!["width"@, "value"@],
        DefId::Button | DefId::Switch | DefId::Led | DefId::Not | DefId::Buffer => seq!["width"@],
        DefId::And | DefId::Or | DefId::Nand | DefId::Nor | DefId::Xor | DefId::Xnor => seq!["width"@, "inputs"@],
        DefId::Splitter | DefId::Merger => seq!["width"@, "low_bits"@],
        DefId::Mux => seq!["width"@, "inputs"@],
        DefId::Decoder => seq!["width"@],
        DefId::PriorityEncoder => seq!["inputs"@],
        DefId::HalfAdder | DefId::FullAdder => Seq::empty(),
        DefId::Adder | DefId::Subtractor => seq!["width"@, "carry"@],
        DefId::Multiplier => seq!["width"@],
        DefId::Comparator => seq!["width"@, "signed"@],
        DefId::Shifter => seq!["width"@, "mode"@],
        DefId::Alu => seq!["width"@],
        DefId::Dff => seq!["enable"@, "reset"@],
        DefId::Register | DefId::Counter => seq!["width"@, "enable"@, "reset"@],
        DefId::Ram | DefId::Rom => seq!["width"@, "depth"@],
        DefId::Custom => Seq::empty(),
        DefId::InputPin | DefId::OutputPin | DefId::SevenSeg => seq!["width"@],
        DefId::Display => seq!["width"@, "depth"@],
    }
}

fn p_range(key: &'static str, label: &'static str, min: i64, max: i64) -> (r: ParamDesc)
    ensures
        desc_view(r) == (key@, label@, 1u8, Seq::<i64>::empty(), Seq::<Seq<char>>::empty(), min, max, 0u32),
{
    ParamDesc { key, label, kind: ParamKind::Int { min, max } }
}

fn p_flag(key: &'static str, label: &'static str, bit: u32) -> (r: ParamDesc)
    ensures
        desc_view(r) == (key@, label@, 2u8, Seq::<i64>::empty(), Seq::<Seq<char>>::empty(), 0i64, 0i64, bit),
{
    ParamDesc { key, label, kind: ParamKind::Bool { bit } }
}

/// The control of parameter `key` (`key` being one of the known keys).
fn p_desc(key: &'static str) -> (r: ParamDesc)
    ensures
        desc_view(r) == desc_spec(key@),
{
    proof {
        reveal_param_keys();
        reveal_strlit("位宽");
        reveal_strlit("输入数");
        reveal_strlit("值");
        reveal_strlit("高电平拍数");
        reveal_strlit("低电平拍数");
        reveal_strlit("深度");
        reveal_strlit("低段位宽");
        reveal_strlit("有符号比较");
        reveal_strlit("使能引脚");
        reveal_strlit("复位引脚");
        reveal_strlit("进位引脚");
        reveal_strlit("移位方向");
        reveal_strlit("左移");
        reveal_strlit("逻辑右移");
        reveal_strlit("算术右移");
    }
    if str_eq(key, "width") {
        let r = ParamDesc { key: "width", label: "位宽", kind: ParamKind::Choice { values: vec![1, 4, 8, 16, 32], labels: Vec::new() } };
        proof {
            if let ParamKind::Choice { values, labels } = &r.kind {
                assert(values@ =~= seq![1i64, 4, 8, 16, 32]);
                assert(labels@.map_values(|t: &'static str| t@) =~= Seq::<Seq<char>>::empty());
            }
        }
        r
    } else if str_eq(key, "inputs") {
        p_range("inputs", "输入数", 2, 8)
    } else if str_eq(key, "value") {
        p_range("value", "值", 0, 65535)
    } else if str_eq(key, "high") {
        p_range("high", "高电平拍数", 1, 255)
    } else if str_eq(key, "low") {
        p_range("low", "低电平拍数", 1, 255)
    } else if str_eq(key, "depth") {
        p_range("depth", "深度", 2, 4096)
    } else if str_eq(key, "low_bits") {
        p_range("low_bits", "低段位宽", 1, 31)
    } else if str_eq(key, "signed") {
        p_flag("signed", "有符号比较", OPT_SIGNED)
    } else if str_eq(key, "enable") {
        p_flag("enable", "使能引脚", OPT_ENABLE)
    } else if str_eq(key, "reset") {
        p_flag("reset", "复位引脚", OPT_RESET)
    } else if str_eq(key, "carry") {
        p_flag("carry", "进位引脚", OPT_CARRY)
    } else {
        let r = ParamDesc {
            key: "mode",
            label: "移位方向",
            kind: ParamKind::Choice { values: vec![0, 1, 2], labels: vec!["左移", "逻辑右移", "算术右移"] },
        };
        proof {
            if let ParamKind::Choice { values, labels } = &r.kind {
                assert(values@ =~= seq![0i64, 1, 2]);
                assert(labels@.map_values(|t: &'static str| t@) =~= seq!["左移"@, "逻辑右移"@, "算术右移"@]);
            }
        }
        r
    }
}

/// The controls for the given keys, in order.
fn p_list(keys: Vec<&'static str>) -> (r: Vec<ParamDesc>)
    ensures
        r@.len() == keys@.len(),
        forall|i: int| 0 <= i < keys@.len() ==> #[trigger] desc_view(r@[i]) == desc_spec(keys@[i]@),
{
    let mut r: Vec<ParamDesc> = Vec::new();
    let mut i: usize = 0;
    while i < keys.len()
        invariant
            i <= keys@.len(),
            r@.len() == i,
            forall|j: int| 0 <= j < i ==> #[trigger] desc_view(r@[j]) == desc_spec(keys@[j]@),
        decreases keys@.len() - i,
    {
        r.push(p_desc(keys[i]));
        i = i + 1;
    }
    r
}

impl DefId {
    /// The editable parameters of this kind (a shell builds its controls from them).
    pub fn params(self) -> (r: Vec<ParamDesc>)
        ensures
            r@.len() == param_keys_of(self).len(),
            forall|i: int| 0 <= i < r@.len() ==> #[trigger] desc_view(r@[i]) == desc_spec(param_keys_of(self)[i]),
    {
        let keys: Vec<&'static str> = match self {
            DefId::Clock => vec!["high", "low"],
            DefId::Constant => vec!["width", "value"],
            DefId::Button | DefId::Switch | DefId::Led | DefId::Not | DefId::Buffer => vec!["width"],
            DefId::And | DefId::Or | DefId::Nand | DefId::Nor | DefId::Xor | DefId::Xnor => vec!["width", "inputs"],
            DefId::Splitter | DefId::Merger => vec!["width", "low_bits"],
            DefId::Mux => vec!["width", "inputs"],
            DefId::Decoder => vec!["width"],
            DefId::PriorityEncoder => vec!["inputs"],
            DefId::HalfAdder | DefId::FullAdder => Vec::new(),
            DefId::Adder | DefId::Subtractor => vec!["width", "carry"],
            DefId::Multiplier => vec!["width"],
            DefId::Comparator => vec!["width", "signed"],
            DefId::Shifter => vec!["width", "mode"],
            DefId::Alu => vec!["width"],
            DefId::Dff => vec!["enable", "reset"],
            DefId::Register | DefId::Counter => vec!["width", "enable", "reset"],
            DefId::Ram | DefId::Rom => vec!["width", "depth"],
            DefId::Custom => Vec::new(),
            DefId::InputPin | DefId::OutputPin | DefId::SevenSeg => vec!["width"],
            DefId::Display => vec!["width", "depth"],
        };
        proof {
            assert(keys@.map_values(|k: &'static str| k@) =~= param_keys_of(self));
            assert forall|i: int| 0 <= i < keys@.len() implies keys@[i]@ == param_keys_of(self)[i] by {
                assert(keys@.map_values(|k: &'static str| k@)[i] == keys@[i]@);
            }
        }
        p_list(keys)
    }
}

// ---------------------------------------------------------------------------
// Splitting and merging back
// ---------------------------------------------------------------------------

proof fn lemma_mask_shift(x: u8)
    requires
        x < 32,
    ensures
        mask(x) == ((1u32 << (x as u32)) - 1) as u32,
        (1u32 << (x as u32)) >= 1,
{
    crate::values::lemma_shl_one(x as u32);
    crate::values::lemma_span_bounds(x);
    vstd::arithmetic::power2::lemma_pow2_pos(x as nat);
}

proof fn lemma_split_merge_bits(v: u32, lo: u8, hi: u8)
    requires
        1 <= lo,
        1 <= hi,
        lo + hi <= 32,
        v <= mask((lo + hi) as u8),
    ensures
        (v & mask(lo)) | shl32(shr32(v, lo) & mask(hi), lo) == v,
{
    lemma_mask_shift(lo);
    lemma_mask_shift(hi);
    let l = lo as u32;
    let h = hi as u32;
    if lo + hi < 32 {
        lemma_mask_shift((lo + hi) as u8);
        assert(v <= ((1u32 << (l + h)) - 1) as u32);
        assert(((v & ((1u32 << l) - 1) as u32) | (((v >> l) & ((1u32 << h) - 1) as u32) << l)) == v) by (bit_vector)
            requires
                1 <= l,
                1 <= h,
                l + h < 32,
                v <= ((1u32 << (l + h)) - 1) as u32,
        ;
    } else {
        assert(((v & ((1u32 << l) - 1) as u32) | (((v >> l) & ((1u32 << h) - 1) as u32) << l)) == v) by (bit_vector)
            requires
                1 <= l,
                1 <= h,
                l + h == 32,
        ;
    }
}

/// Splitting a value and merging the two segments back gives the value
/// again: a splitter and a merger with the same parameters are inverse.
pub proof fn law_split_then_merge(p: Params, a: NetValue)
    requires
        2 <= p.width <= 32,
        a.val <= mask(p.width),
        a.unk <= mask(p.width),
    ensures
        routing_spec(DefId::Merger, p, routing_spec(DefId::Splitter, p, seq![a], 2), 1) == seq![a],
{
    let lo = low_bits_spec(p);
    let hiw: u8 = (p.width - lo) as u8;
    assert(1 <= lo && lo < p.width);
    lemma_split_merge_bits(a.val, lo, hiw);
    lemma_split_merge_bits(a.unk, lo, hiw);
    let (ml, mh) = (mask(lo), mask(hiw));
    let (v, u) = (a.val, a.unk);
    let (sv, su) = (shr32(v, lo), shr32(u, lo));
    assert((v & ml) & ml == v & ml) by (bit_vector);
    assert((u & ml) & ml == u & ml) by (bit_vector);
    assert((sv & mh) & mh == sv & mh) by (bit_vector);
    assert((su & mh) & mh == su & mh) by (bit_vector);
    let parts = routing_spec(DefId::Splitter, p, seq![a], 2);
    assert(parts[0] == NetValue { val: v & ml, unk: u & ml });
    assert(parts[1] == NetValue { val: sv & mh, unk: su & mh });
    assert(routing_spec(DefId::Merger, p, routing_spec(DefId::Splitter, p, seq![a], 2), 1) =~= seq![a]);
}


/// A subtractor outputs `A - B - borrow-in` wrapped to its width, `A` being
/// its first input and `B` its second; its borrow output, when it has one, is
/// set exactly when `A < B + borrow-in`.
pub proof fn law_subtractor_subtracts(
    p: Params,
    ins: Seq<NetValue>,
    reg: u32,
    prev: u8,
    cnt: u32,
    mem: Seq<u32>,
    outs: Seq<NetValue>,
)
    requires
        ins.len() == in_count_spec(DefId::Subtractor, p),
        outs.len() == out_count_spec(DefId::Subtractor, p),
    ensures
        ({
            let r = step_spec(DefId::Subtractor, p, ins, reg, prev, cnt, mem, outs).0;
            let m = span(p.width) as int;
            let a = ins[0].val as int % m;
            let b = ins[1].val as int % m;
            let bin: int = if has_opt(p, OPT_CARRY) && high(ins[2]) { 1 } else { 0 };
            &&& r[0].unk == 0
            &&& r[0].val as int == (a - b - bin) % m
            &&& outs.len() > 1 ==> r[1] == (NetValue { val: if a < b + bin { 1 } else { 0 }, unk: 0 })
        }),
{
    lemma_span_bounds(p.width);
    let m = span(p.width) as int;
    let w = p.width;
    let c: u32 = if has_opt(p, OPT_CARRY) && high(ins[2]) { 1 } else { 0 };
    let d = low(ins[0].val, w) - low(ins[1].val, w) - c % 2;
    let s = (d % m) as u32;
    assert(0 <= d % m < m);
    assert(s as int == d % m);
    vstd::arithmetic::div_mod::lemma_small_mod(s as nat, m as nat);
    assert(low(s, w) == s);
    assert(low(ins[0].val, w) as int == ins[0].val as int % m);
    assert(low(ins[1].val, w) as int == ins[1].val as int % m);
    assert(c % 2 == c);
    vstd::arithmetic::div_mod::lemma_small_mod(low(ins[0].val, w) as nat, m as nat);
    vstd::arithmetic::div_mod::lemma_small_mod(low(ins[1].val, w) as nat, m as nat);
    assert(low(low(ins[0].val, w), w) == low(ins[0].val, w));
    assert(low(low(ins[1].val, w), w) == low(ins[1].val, w));
    let bo: u32 = if d < 0 { 1 } else { 0 };
    assert(sub_spec(low(ins[0].val, w), low(ins[1].val, w), c, w) == (s, bo));
    assert(low(bo, 1) == bo) by {
        vstd::arithmetic::div_mod::lemma_small_mod(bo as nat, 2);
        lemma_span_bounds(1);
        assert(span(1) == 2) by {
            vstd::arithmetic::power2::lemma2_to64();
        }
    }
    let r = step_spec(DefId::Subtractor, p, ins, reg, prev, cnt, mem, outs).0;
    assert(r == arith_spec(DefId::Subtractor, p, ins, outs.len()));
    assert(r[0] == known(s, w));
    if outs.len() > 1 {
        assert(r[1] == known(bo, 1));
    }
}

/// The sources are exactly the kinds that drive an output without reading
/// any input (buttons, switches, clocks, constants, interface inputs).
pub proof fn law_sources_drive_without_inputs(d: DefId, p: Params)
    ensures
        is_source_spec(d) <==> (in_count_spec(d, p) == 0 && out_count_spec(d, p) > 0),
{
}

} // verus!
