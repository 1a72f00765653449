# Sketchfab Downloader

Exports models of the Sketchfab viewer to self-contained glTF 2.0 (`.glb`) files.

The library under `src/` is written in Verus: its functions carry contracts, and the proofs are
part of the source. It reads the embed page, the model's description, the scene and its binary
files, puts protected textures in order, drives the decryption module, and builds the glTF
document. Floating-point numbers are held as bit patterns.

The program under `app/` is ordinary Rust around the library: arguments, the network, the file
system, the host of the decryption module, and floating-point arithmetic.

| Modules | Contents |
| --- | --- |
| `json`, `text`, `float_bits`, `metadata` | values, texts, numbers |
| `page`, `model` | what the page and the description say |
| `wasm`, `decrypt` | the decryption module and the session with it |
| `zigzag`, `texture`, `images` | textures |
| `buffers`, `mesh`, `primitives`, `attributes`, `geometry` | stored geometries |
| `scene`, `traversal` | the scene: references, skeletons, placed geometries |
| `keyframes`, `animation` | animations |
| `gltf`, `palette`, `convert`, `layout` | the document |
| `outside` | calls into other crates |

Public proof functions whose names start with `law_` state what holds of the library as a whole.

## Usage

```bash
sketchfab_downloader <sketchfab-url-or-uid> [output.glb]
```

Use only with models you are authorized to download and reuse.
