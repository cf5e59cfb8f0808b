//! The compiler context: where output goes.
use vstd::prelude::*;

verus! {

/// The output layout of the compiler.
pub struct OmnicomCtx {
    out: String,
    bin: String,
    lib: String,
}

impl OmnicomCtx {
    /// The compiler's version.
    pub const OMNI_VERSION: &'static str = "0.0.1";

    /// The output directory.
    pub closed spec fn out_dir(&self) -> Seq<char> {
        self.out@
    }

    /// The directory of generated binaries.
    pub closed spec fn bin_dir(&self) -> Seq<char> {
        self.bin@
    }

    /// The directory of generated libraries.
    pub closed spec fn lib_dir(&self) -> Seq<char> {
        self.lib@
    }

    pub fn get_out(&self) -> (r: &str)
        ensures
            r@ == self.out_dir(),
    {
        self.out.as_str()
    }

    pub fn get_bin(&self) -> (r: &str)
        ensures
            r@ == self.bin_dir(),
    {
        self.bin.as_str()
    }

    pub fn get_lib(&self) -> (r: &str)
        ensures
            r@ == self.lib_dir(),
    {
        self.lib.as_str()
    }
}

impl Default for OmnicomCtx {
    /// Output under `./build`, binaries under `./build/bin`, libraries under
    /// `./build/lib`.
    fn default() -> (r: Self)
        ensures
            r.out_dir() == "./build"@,
            r.bin_dir() == "./build/bin"@,
            r.lib_dir() == "./build/lib"@,
    {
        OmnicomCtx {
            out: String::from_str("./build"),
            bin: String::from_str("./build/bin"),
            lib: String::from_str("./build/lib"),
        }
    }
}

} // verus!
