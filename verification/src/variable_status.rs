//! Why a variable can or cannot be read, and counts of such reasons.

use vstd::prelude::*;
use vstd::string::*;
use crate::text::push_signed;
#[allow(unused_imports)]
use crate::text::signed_decimal;

verus! {

/// Status of a variable's address resolution
#[derive(Debug)]
pub enum VariableStatus {
    /// Variable has a valid static address
    Valid { address: u64 },
    /// Variable was optimized out (has type but no location)
    OptimizedOut,
    /// Variable is a local requiring runtime context
    LocalVariable { reason: String },
    /// Variable is declared here and defined elsewhere
    ExternDeclaration,
    /// Variable is a compile-time constant
    CompileTimeConstant { value: Option<i64> },
    /// Variable's type could not be resolved
    UnresolvedType { name: Option<String> },
    /// No location information in DWARF
    NoLocation,
    /// Location evaluated to address 0 (may be valid on embedded)
    AddressZero,
    /// Value is in a register only (no memory address)
    RegisterOnly { register: u16 },
    /// Value is implicit/computed (DW_OP_stack_value, DW_OP_implicit_value)
    ImplicitValue,
    /// Pointer to optimized-out data (DW_OP_implicit_pointer)
    ImplicitPointer,
    /// Variable split across multiple locations (DW_OP_piece)
    MultiPiece { has_address: bool },
    /// Compiler-generated variable (DW_AT_artificial)
    Artificial,
}

/// What a variable's status says.
#[verifier::ext_equal]
pub enum StatusView {
    Valid { address: u64 },
    OptimizedOut,
    LocalVariable { reason: Seq<char> },
    ExternDeclaration,
    CompileTimeConstant { value: Option<i64> },
    UnresolvedType { name: Option<Seq<char>> },
    NoLocation,
    AddressZero,
    RegisterOnly { register: u16 },
    ImplicitValue,
    ImplicitPointer,
    MultiPiece { has_address: bool },
    Artificial,
}

impl View for VariableStatus {
    type V = StatusView;

    open spec fn view(&self) -> StatusView {
        match self {
            VariableStatus::Valid { address } => StatusView::Valid { address: *address },
            VariableStatus::OptimizedOut => StatusView::OptimizedOut,
            VariableStatus::LocalVariable { reason } => StatusView::LocalVariable {
                reason: reason@,
            },
            VariableStatus::ExternDeclaration => StatusView::ExternDeclaration,
            VariableStatus::CompileTimeConstant { value } => StatusView::CompileTimeConstant {
                value: *value,
            },
            VariableStatus::UnresolvedType { name } => StatusView::UnresolvedType {
                name: match name {
                    Some(name) => Some(name@),
                    None => None,
                },
            },
            VariableStatus::NoLocation => StatusView::NoLocation,
            VariableStatus::AddressZero => StatusView::AddressZero,
            VariableStatus::RegisterOnly { register } => StatusView::RegisterOnly {
                register: *register,
            },
            VariableStatus::ImplicitValue => StatusView::ImplicitValue,
            VariableStatus::ImplicitPointer => StatusView::ImplicitPointer,
            VariableStatus::MultiPiece { has_address } => StatusView::MultiPiece {
                has_address: *has_address,
            },
            VariableStatus::Artificial => StatusView::Artificial,
        }
    }
}

impl StatusView {
    /// The address if available; 0 stands for a variable in pieces.
    pub open spec fn address(self) -> Option<u64> {
        match self {
            StatusView::Valid { address } => Some(address),
            StatusView::AddressZero => Some(0),
            StatusView::MultiPiece { has_address } => if has_address {
                Some(0)
            } else {
                None
            },
            _ => None,
        }
    }
}

impl Clone for VariableStatus {
    fn clone(&self) -> (r: Self)
        ensures
            r == *self,
    {
        match self {
            VariableStatus::Valid { address } => VariableStatus::Valid { address: *address },
            VariableStatus::OptimizedOut => VariableStatus::OptimizedOut,
            VariableStatus::LocalVariable { reason } => VariableStatus::LocalVariable {
                reason: reason.clone(),
            },
            VariableStatus::ExternDeclaration => VariableStatus::ExternDeclaration,
            VariableStatus::CompileTimeConstant { value } => VariableStatus::CompileTimeConstant {
                value: *value,
            },
            VariableStatus::UnresolvedType { name } => VariableStatus::UnresolvedType {
                name: match name {
                    Some(name) => Some(name.clone()),
                    None => None,
                },
            },
            VariableStatus::NoLocation => VariableStatus::NoLocation,
            VariableStatus::AddressZero => VariableStatus::AddressZero,
            VariableStatus::RegisterOnly { register } => VariableStatus::RegisterOnly {
                register: *register,
            },
            VariableStatus::ImplicitValue => VariableStatus::ImplicitValue,
            VariableStatus::ImplicitPointer => VariableStatus::ImplicitPointer,
            VariableStatus::MultiPiece { has_address } => VariableStatus::MultiPiece {
                has_address: *has_address,
            },
            VariableStatus::Artificial => VariableStatus::Artificial,
        }
    }
}

impl VariableStatus {
    pub open spec fn spec_is_readable(self) -> bool {
        match self {
            VariableStatus::Valid { .. } => true,
            VariableStatus::AddressZero => true,
            VariableStatus::MultiPiece { has_address } => has_address,
            _ => false,
        }
    }

    /// Check if this variable is readable (has a valid address)
    pub fn is_readable(&self) -> (r: bool)
        ensures
            r == self.spec_is_readable(),
    {
        match self {
            VariableStatus::Valid { .. } => true,
            VariableStatus::AddressZero => true,
            VariableStatus::MultiPiece { has_address } => *has_address,
            _ => false,
        }
    }

    /// A variable in pieces has no one address; 0 stands for it.
    pub open spec fn spec_address(self) -> Option<u64> {
        match self {
            VariableStatus::Valid { address } => Some(address),
            VariableStatus::AddressZero => Some(0),
            VariableStatus::MultiPiece { has_address } => if has_address {
                Some(0)
            } else {
                None
            },
            _ => None,
        }
    }

    /// Get the address if available
    pub fn address(&self) -> (r: Option<u64>)
        ensures
            r == self.spec_address(),
            r == self@.address(),
            r is Some <==> self.spec_is_readable(),
    {
        match self {
            VariableStatus::Valid { address } => Some(*address),
            VariableStatus::AddressZero => Some(0),
            VariableStatus::MultiPiece { has_address } => if *has_address {
                Some(0)
            } else {
                None
            },
            _ => None,
        }
    }

    pub open spec fn spec_reason(self) -> Seq<char> {
        match self {
            VariableStatus::Valid { .. } => "Valid address"@,
            VariableStatus::OptimizedOut => "Optimized out by compiler"@,
            VariableStatus::LocalVariable { .. } => "Local variable (requires runtime context)"@,
            VariableStatus::ExternDeclaration => "External declaration (defined in another unit)"@,
            VariableStatus::CompileTimeConstant { .. } => "Compile-time constant (no runtime storage)"@,
            VariableStatus::UnresolvedType { .. } => "Type information unavailable"@,
            VariableStatus::NoLocation => "No location information in debug info"@,
            VariableStatus::AddressZero => "Address is 0 (may be valid on embedded targets)"@,
            VariableStatus::RegisterOnly { .. } => "Value in register only (no memory address)"@,
            VariableStatus::ImplicitValue => "Implicit value (computed, no storage)"@,
            VariableStatus::ImplicitPointer => "Implicit pointer (points to optimized-out data)"@,
            VariableStatus::MultiPiece { has_address } => if has_address {
                "Split across locations (partial address)"@
            } else {
                "Split across registers/implicit values"@
            },
            VariableStatus::Artificial => "Compiler-generated variable"@,
        }
    }

    /// Get a human-readable reason for the status
    pub fn reason(&self) -> (r: &'static str)
        ensures
            r@ == self.spec_reason(),
    {
        match self {
            VariableStatus::Valid { .. } => "Valid address",
            VariableStatus::OptimizedOut => "Optimized out by compiler",
            VariableStatus::LocalVariable { .. } => "Local variable (requires runtime context)",
            VariableStatus::ExternDeclaration => "External declaration (defined in another unit)",
            VariableStatus::CompileTimeConstant { .. } => "Compile-time constant (no runtime storage)",
            VariableStatus::UnresolvedType { .. } => "Type information unavailable",
            VariableStatus::NoLocation => "No location information in debug info",
            VariableStatus::AddressZero => "Address is 0 (may be valid on embedded targets)",
            VariableStatus::RegisterOnly { .. } => "Value in register only (no memory address)",
            VariableStatus::ImplicitValue => "Implicit value (computed, no storage)",
            VariableStatus::ImplicitPointer => "Implicit pointer (points to optimized-out data)",
            VariableStatus::MultiPiece { has_address } => if *has_address {
                "Split across locations (partial address)"
            } else {
                "Split across registers/implicit values"
            },
            VariableStatus::Artificial => "Compiler-generated variable",
        }
    }

    pub open spec fn spec_detailed_reason(self) -> Seq<char> {
        match self {
            VariableStatus::LocalVariable { reason } => "Local variable: "@ + reason@,
            VariableStatus::CompileTimeConstant { value: Some(v) } => "Compile-time constant: value = "@
                + signed_decimal(v as int),
            VariableStatus::UnresolvedType { name: Some(name) } => "Unresolved type: "@ + name@,
            _ => self.spec_reason(),
        }
    }

    /// Get detailed reason including any additional context
    pub fn detailed_reason(&self) -> (r: String)
        ensures
            r@ == self.spec_detailed_reason(),
    {
        match self {
            VariableStatus::LocalVariable { reason } => {
                let mut out: String = "Local variable: ".to_owned();
                out.append(reason.as_str());
                out
            },
            VariableStatus::CompileTimeConstant { value: Some(v) } => {
                let mut out: String = "Compile-time constant: value = ".to_owned();
                push_signed(&mut out, *v);
                out
            },
            VariableStatus::UnresolvedType { name: Some(name) } => {
                let mut out: String = "Unresolved type: ".to_owned();
                out.append(name.as_str());
                out
            },
            _ => self.reason().to_owned(),
        }
    }
}

/// Diagnostic statistics from DWARF parsing
#[derive(Copy, Clone, Debug, PartialEq, Eq, Structural)]
pub struct DwarfDiagnostics {
    /// Total number of variables found in DWARF
    pub total_variables: usize,
    /// Variables with valid static addresses
    pub with_valid_address: usize,
    /// Variables optimized out by the compiler
    pub optimized_out: usize,
    /// Local variables requiring runtime context
    pub local_variables: usize,
    /// External declarations (defined elsewhere)
    pub extern_declarations: usize,
    /// Compile-time constants with no runtime storage
    pub compile_time_constants: usize,
    /// Variables with no location information
    pub no_location: usize,
    /// Variables with unresolved types
    pub unresolved_types: usize,
    /// Variables with address 0 (may be valid on embedded)
    pub address_zero: usize,
    /// Variables in registers only (no memory address)
    pub register_only: usize,
    /// Variables with implicit/computed values
    pub implicit_value: usize,
    /// Variables with implicit pointers
    pub implicit_pointer: usize,
    /// Variables split across multiple locations
    pub multi_piece: usize,
    /// Compiler-generated (artificial) variables
    pub artificial: usize,
}

/// Diagnostics before anything was counted.
pub open spec fn no_diagnostics() -> DwarfDiagnostics {
    DwarfDiagnostics {
        total_variables: 0,
        with_valid_address: 0,
        optimized_out: 0,
        local_variables: 0,
        extern_declarations: 0,
        compile_time_constants: 0,
        no_location: 0,
        unresolved_types: 0,
        address_zero: 0,
        register_only: 0,
        implicit_value: 0,
        implicit_pointer: 0,
        multi_piece: 0,
        artificial: 0,
    }
}

impl Default for DwarfDiagnostics {
    fn default() -> (r: Self)
        ensures
            r == no_diagnostics(),
    {
        DwarfDiagnostics {
            total_variables: 0,
            with_valid_address: 0,
            optimized_out: 0,
            local_variables: 0,
            extern_declarations: 0,
            compile_time_constants: 0,
            no_location: 0,
            unresolved_types: 0,
            address_zero: 0,
            register_only: 0,
            implicit_value: 0,
            implicit_pointer: 0,
            multi_piece: 0,
            artificial: 0,
        }
    }
}

impl DwarfDiagnostics {
    /// Whether every count is at most `n`.
    pub open spec fn at_most(self, n: int) -> bool {
        &&& self.total_variables <= n
        &&& self.with_valid_address <= n
        &&& self.optimized_out <= n
        &&& self.local_variables <= n
        &&& self.extern_declarations <= n
        &&& self.compile_time_constants <= n
        &&& self.no_location <= n
        &&& self.unresolved_types <= n
        &&& self.address_zero <= n
        &&& self.register_only <= n
        &&& self.implicit_value <= n
        &&& self.implicit_pointer <= n
        &&& self.multi_piece <= n
        &&& self.artificial <= n
    }

    /// The statistics with one more variable of this status.
    pub open spec fn recording(self, status: StatusView) -> DwarfDiagnostics {
        let more = DwarfDiagnostics { total_variables: (self.total_variables + 1) as usize, ..self };
        match status {
            StatusView::Valid { .. } => DwarfDiagnostics { with_valid_address: (self.with_valid_address + 1) as usize, ..more },
            StatusView::OptimizedOut => DwarfDiagnostics { optimized_out: (self.optimized_out + 1) as usize, ..more },
            StatusView::LocalVariable { .. } => DwarfDiagnostics { local_variables: (self.local_variables + 1) as usize, ..more },
            StatusView::ExternDeclaration => DwarfDiagnostics { extern_declarations: (self.extern_declarations + 1) as usize, ..more },
            StatusView::CompileTimeConstant { .. } => DwarfDiagnostics { compile_time_constants: (self.compile_time_constants + 1) as usize, ..more },
            StatusView::UnresolvedType { .. } => DwarfDiagnostics { unresolved_types: (self.unresolved_types + 1) as usize, ..more },
            StatusView::NoLocation => DwarfDiagnostics { no_location: (self.no_location + 1) as usize, ..more },
            StatusView::AddressZero => DwarfDiagnostics { address_zero: (self.address_zero + 1) as usize, ..more },
            StatusView::RegisterOnly { .. } => DwarfDiagnostics { register_only: (self.register_only + 1) as usize, ..more },
            StatusView::ImplicitValue => DwarfDiagnostics { implicit_value: (self.implicit_value + 1) as usize, ..more },
            StatusView::ImplicitPointer => DwarfDiagnostics { implicit_pointer: (self.implicit_pointer + 1) as usize, ..more },
            StatusView::MultiPiece { .. } => DwarfDiagnostics { multi_piece: (self.multi_piece + 1) as usize, ..more },
            StatusView::Artificial => DwarfDiagnostics { artificial: (self.artificial + 1) as usize, ..more },
        }
    }

    /// Increment the appropriate counter based on variable status
    pub fn record(&mut self, status: &VariableStatus)
        requires
            old(self).at_most(usize::MAX - 1),
        ensures
            *final(self) == old(self).recording(status@),
    {
        self.total_variables = self.total_variables + 1;
        match status {
            VariableStatus::Valid { .. } => {
                self.with_valid_address = self.with_valid_address + 1;
            },
            VariableStatus::OptimizedOut => {
                self.optimized_out = self.optimized_out + 1;
            },
            VariableStatus::LocalVariable { .. } => {
                self.local_variables = self.local_variables + 1;
            },
            VariableStatus::ExternDeclaration => {
                self.extern_declarations = self.extern_declarations + 1;
            },
            VariableStatus::CompileTimeConstant { .. } => {
                self.compile_time_constants = self.compile_time_constants + 1;
            },
            VariableStatus::UnresolvedType { .. } => {
                self.unresolved_types = self.unresolved_types + 1;
            },
            VariableStatus::NoLocation => {
                self.no_location = self.no_location + 1;
            },
            VariableStatus::AddressZero => {
                self.address_zero = self.address_zero + 1;
            },
            VariableStatus::RegisterOnly { .. } => {
                self.register_only = self.register_only + 1;
            },
            VariableStatus::ImplicitValue => {
                self.implicit_value = self.implicit_value + 1;
            },
            VariableStatus::ImplicitPointer => {
                self.implicit_pointer = self.implicit_pointer + 1;
            },
            VariableStatus::MultiPiece { .. } => {
                self.multi_piece = self.multi_piece + 1;
            },
            VariableStatus::Artificial => {
                self.artificial = self.artificial + 1;
            },
        }
    }
}

/// Recording counts the variable once in the total and once under its status.
pub proof fn lemma_record_counts_once(d: DwarfDiagnostics, status: StatusView)
    requires
        d.at_most(usize::MAX - 1),
    ensures
        d.recording(status).total_variables == d.total_variables + 1,
        d.recording(status).by_status() == d.by_status() + 1,
{
}

impl DwarfDiagnostics {
    /// How many variables the statuses account for.
    pub open spec fn by_status(self) -> int {
        self.with_valid_address + self.optimized_out + self.local_variables
            + self.extern_declarations + self.compile_time_constants + self.no_location
            + self.unresolved_types + self.address_zero + self.register_only + self.implicit_value
            + self.implicit_pointer + self.multi_piece + self.artificial
    }
}

} // verus!
