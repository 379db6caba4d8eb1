//! Rendering backends, device capabilities and window settings.
use vstd::prelude::*;

verus! {

/// Rendering backend type.
#[derive(Debug, Clone, Copy, PartialEq, Eq, Structural)]
pub enum BackendType {
    /// Metal (macOS, iOS)
    Metal,
    /// DirectX 11 (Windows)
    DirectX11,
    /// DirectX 12 (Windows)
    DirectX12,
    /// Vulkan (cross-platform)
    Vulkan,
    /// OpenGL (cross-platform, fallback)
    OpenGL,
    /// WebGL (web)
    WebGL,
    /// Software rasterizer (ultimate fallback)
    Software,
}

/// What a rendering device supports.
#[derive(Debug, Clone, Copy, PartialEq, Eq, Structural)]
pub struct DeviceCapabilities {
    pub backend: BackendType,
    pub max_texture_size: u32,
    pub supports_compute: bool,
    pub supports_instancing: bool,
}

/// Capabilities of the rendering device. No device is probed yet: a Metal
/// device with 8192-texel textures, compute and instancing is reported.
pub fn probe_capabilities() -> (c: DeviceCapabilities)
    ensures
        c == (DeviceCapabilities {
            backend: BackendType::Metal,
            max_texture_size: 8192,
            supports_compute: true,
            supports_instancing: true,
        }),
{
    DeviceCapabilities {
        backend: BackendType::Metal,
        max_texture_size: 8192,
        supports_compute: true,
        supports_instancing: true,
    }
}

/// Title and inner size of a window.
pub struct WindowConfig {
    pub title: String,
    pub width: u32,
    pub height: u32,
}

impl WindowConfig {
    /// "Latch Engine", 1280 by 720.
    pub fn default() -> (c: Self)
        ensures
            c.title@ == "Latch Engine"@,
            c.width == 1280,
            c.height == 720,
    {
        WindowConfig { title: "Latch Engine".to_owned(), width: 1280, height: 720 }
    }
}

} // verus!
