//! The buffers that a network display imported, and those that it refuses.

use crate::display::{DisplayExternalResourceImport, DmabufImport};
use std::collections::BTreeMap;
use vstd::prelude::*;

verus! {

/// A buffer that was imported: its handle, that of its view for an encoder, and its size.
#[derive(Clone, Copy, Debug, PartialEq, Eq, Structural)]
pub struct VncImport {
    pub handle: i64,
    /// Zero where there is no encoder, or no view for it could be made.
    pub encoder_handle: i64,
    pub width: u32,
    pub height: u32,
}

/// Why a buffer is not imported.
#[derive(Clone, Copy, Debug, PartialEq, Eq, Structural)]
pub enum ImportError {
    /// It is no buffer of pixels.
    NotDmabuf,
    /// Its colors would have to be mapped.
    Color,
    /// There is nothing that could read it but the CPU.
    NoGpu,
    /// The import failed.
    Failed,
}

/// Why a buffer cannot be asked for at all.
pub open spec fn refusal(resource: DisplayExternalResourceImport) -> Option<ImportError> {
    match resource {
        DisplayExternalResourceImport::Dmabuf(d) => if d.color is Some || d.has_transform {
            Some(ImportError::Color)
        } else {
            None
        },
        _ => Some(ImportError::NotDmabuf),
    }
}

/// The buffer that is to be imported, unless it is refused at once.
pub fn import_request(resource: &DisplayExternalResourceImport) -> (r: Result<
    DmabufImport,
    ImportError,
>)
    ensures
        match refusal(*resource) {
            Some(e) => r == Err::<DmabufImport, ImportError>(e),
            None => r matches Ok(d) && *resource == DisplayExternalResourceImport::Dmabuf(d),
        },
{
    match resource {
        DisplayExternalResourceImport::Dmabuf(d) => {
            if d.color.is_some() || d.has_transform {
                return Err(ImportError::Color);
            }
            Ok(*d)
        },
        _ => Err(ImportError::NotDmabuf),
    }
}

/// Whether there is anything but the CPU that reads buffers: it is asked once.
pub struct BlitProbe {
    pub probed: bool,
    pub available: bool,
}

impl BlitProbe {
    /// Nothing was asked.
    pub open spec fn fresh() -> BlitProbe {
        BlitProbe { probed: false, available: false }
    }

    /// Whether it has to be asked, and what is known after that.
    pub open spec fn begun(self) -> (bool, BlitProbe) {
        (!self.probed, BlitProbe { probed: true, ..self })
    }

    /// What is known after the answer.
    pub open spec fn answered(self, available: bool) -> BlitProbe {
        BlitProbe { available, ..self }
    }

    pub fn new() -> (r: Self)
        ensures
            !r.probed,
            !r.available,
            r == BlitProbe::fresh(),
    {
        BlitProbe { probed: false, available: false }
    }

    /// Whether it has to be asked now.
    pub fn begin(&mut self) -> (r: bool)
        ensures
            r == !old(self).probed,
            (r, *final(self)) == old(self).begun(),
            final(self).probed,
            final(self).available == old(self).available,
    {
        let first: bool = !self.probed;
        self.probed = true;
        first
    }

    /// Keeps the answer.
    pub fn answer(&mut self, available: bool)
        ensures
            final(self).probed == old(self).probed,
            final(self).available == available,
            *final(self) == old(self).answered(available),
    {
        self.available = available;
    }
}

/// The handle of an import that was made: zero stands for none.
pub fn import_handle(raw: i64) -> (r: Option<i64>)
    ensures
        r == (if raw == 0 {
            None
        } else {
            Some(raw)
        }),
        r is None <==> raw == 0,
        r matches Some(h) ==> h == raw,
{
    if raw == 0 {
        None
    } else {
        Some(raw)
    }
}

/// What a view of a buffer is read for.
#[derive(Clone, Copy, Debug, PartialEq, Eq, Structural)]
pub enum BufferView {
    /// The screen that is shown.
    Screen,
    /// The encoder of a stream.
    Encoder,
}

/// Red and blue are exchanged in a view.
pub open spec fn exchanged(view: BufferView) -> bool {
    view is Screen
}

/// The two views of a buffer differ in where red and blue are, and the encoder's is as the buffer is.
pub proof fn views_differ_in_red_and_blue(view: BufferView, other: BufferView)
    ensures
        view != other ==> exchanged(view) != exchanged(other),
        exchanged(view) ==> view != BufferView::Encoder,
{
}

/// Whether red and blue are exchanged in a view of a buffer: the screen wants them so, and an
/// encoder reads the pixels in the byte order that they have.
pub fn exchange_red_blue(view: BufferView) -> (r: bool)
    ensures
        r == (view == BufferView::Screen),
        r == exchanged(view),
{
    match view {
        BufferView::Screen => true,
        BufferView::Encoder => false,
    }
}

/// Whether a second view of a buffer is imported, in the byte order that an encoder reads: only of
/// a buffer that was imported, and only where there is an encoder to read it.
pub fn wants_encoder_view(handle: Option<i64>, has_encoder: bool) -> (r: bool)
    ensures
        r == (handle is Some && has_encoder),
        r ==> has_encoder,
        !r && has_encoder ==> handle is None,
{
    handle.is_some() && has_encoder
}

/// The buffers that were imported, by their ids.
pub struct VncImports {
    pub imports: BTreeMap<u32, VncImport>,
}

impl View for VncImports {
    type V = Map<u32, VncImport>;

    open spec fn view(&self) -> Map<u32, VncImport> {
        self.imports@
    }
}

impl VncImports {
    pub fn new() -> (r: Self)
        ensures
            r@ == Map::<u32, VncImport>::empty(),
    {
        VncImports { imports: BTreeMap::new() }
    }

    /// Keeps a buffer, given what came of importing it. A view for an encoder is asked for only
    /// where there is one, and not having it is no failure.
    pub fn import_resource(
        &mut self,
        import_id: u32,
        request: &DmabufImport,
        gpu: bool,
        handle: Option<i64>,
        encoder_view: Option<i64>,
    ) -> (r: Result<(), ImportError>)
        ensures
            r == (if !gpu {
                Err(ImportError::NoGpu)
            } else if handle is None {
                Err(ImportError::Failed)
            } else {
                Ok(())
            }),
            final(self)@ == if r is Ok {
                old(self)@.insert(
                    import_id,
                    VncImport {
                        handle: handle->0,
                        encoder_handle: match encoder_view {
                            Some(h) => h,
                            None => 0,
                        },
                        width: request.width,
                        height: request.height,
                    },
                )
            } else {
                old(self)@
            },
            r is Ok ==> final(self)@ == with_import(
                old(self)@,
                import_id,
                *request,
                handle->0,
                encoder_view,
            ),
    {
        if !gpu {
            return Err(ImportError::NoGpu);
        }
        match handle {
            None => Err(ImportError::Failed),
            Some(handle) => {
                let encoder_handle: i64 = match encoder_view {
                    Some(h) => h,
                    None => 0,
                };
                self.imports.insert(
                    import_id,
                    VncImport {
                        handle,
                        encoder_handle,
                        width: request.width,
                        height: request.height,
                    },
                );
                Ok(())
            },
        }
    }

    /// The buffer of that id.
    pub fn get(&self, import_id: u32) -> (r: Option<VncImport>)
        ensures
            r == (if self@.contains_key(import_id) {
                Some(self@[import_id])
            } else {
                None
            }),
    {
        match self.imports.get(&import_id) {
            Some(i) => Some(*i),
            None => None,
        }
    }

    /// Gives up a buffer: the handles that are released, the second one only where it is not zero.
    pub fn release_import(&mut self, import_id: u32) -> (r: (Option<i64>, Option<i64>))
        ensures
            final(self)@ == old(self)@.remove(import_id),
            r == given_up(old(self)@, import_id),
            r == (if old(self)@.contains_key(import_id) {
                let i = old(self)@[import_id];
                (
                    Some(i.handle),
                    if i.encoder_handle != 0 {
                        Some(i.encoder_handle)
                    } else {
                        None
                    },
                )
            } else {
                (None, None)
            }),
    {
        match self.imports.remove(&import_id) {
            Some(i) => {
                let second: Option<i64> = if i.encoder_handle != 0 {
                    Some(i.encoder_handle)
                } else {
                    None
                };
                (Some(i.handle), second)
            },
            None => {
                assert(self@ =~= old(self)@.remove(import_id));
                (None, None)
            },
        }
    }
}

/// A buffer is found as long as it was not given up, and not after that.
pub proof fn imports_last_until_they_are_released(
    imports: Map<u32, VncImport>,
    id: u32,
    other: u32,
    import: VncImport,
)
    requires
        id != other,
    ensures
        imports.insert(id, import).remove(other)[id] == import,
        !imports.insert(id, import).remove(id).contains_key(id),
{
}

/// The buffers once one was imported.
pub open spec fn with_import(
    imports: Map<u32, VncImport>,
    id: u32,
    request: DmabufImport,
    handle: i64,
    encoder_view: Option<i64>,
) -> Map<u32, VncImport> {
    imports.insert(
        id,
        VncImport {
            handle,
            encoder_handle: match encoder_view {
                Some(h) => h,
                None => 0,
            },
            width: request.width,
            height: request.height,
        },
    )
}

/// The handles that are released with a buffer.
pub open spec fn given_up(imports: Map<u32, VncImport>, id: u32) -> (Option<i64>, Option<i64>) {
    if imports.contains_key(id) {
        let i = imports[id];
        (
            Some(i.handle),
            if i.encoder_handle != 0 {
                Some(i.encoder_handle)
            } else {
                None
            },
        )
    } else {
        (None, None)
    }
}

/// With a buffer exactly the handles are released that were made for it, and with no other; until
/// then it has the size that was asked for.
pub proof fn what_is_imported_is_released(
    imports: Map<u32, VncImport>,
    id: u32,
    other: u32,
    request: DmabufImport,
    handle: i64,
    encoder_view: Option<i64>,
)
    requires
        id != other,
        encoder_view != Some(0i64),
    ensures
        ({
            let held = with_import(imports, id, request, handle, encoder_view);
            &&& given_up(held, id) == (Some(handle), encoder_view)
            &&& given_up(held, other) == given_up(imports, other)
            &&& given_up(held.remove(id), id) == (None::<i64>, None::<i64>)
            &&& held[id].width == request.width
            &&& held[id].height == request.height
        }),
{
}

/// A buffer of pixels is refused exactly where it comes with colors of its own, and nothing else is a
/// buffer of pixels.
pub proof fn plain_buffers_are_not_refused(resource: DisplayExternalResourceImport)
    ensures
        match resource {
            DisplayExternalResourceImport::Dmabuf(d) => {
                &&& refusal(resource) is None <==> d.color is None && !d.has_transform
                &&& refusal(resource) matches Some(e) ==> e is Color
            },
            _ => refusal(resource) matches Some(e) && e is NotDmabuf,
        },
{
}

/// It is asked once, and what it answered stands from then on.
pub proof fn it_is_asked_once(available: bool)
    ensures
        ({
            let (ask, asked) = BlitProbe::fresh().begun();
            let known = asked.answered(available);
            let (again, later) = known.begun();
            &&& ask && !again
            &&& later.available == available
            &&& !asked.begun().0
            &&& !BlitProbe::fresh().available
        }),
{
}

} // verus!
