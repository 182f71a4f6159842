# walls

Search wallhaven.cc wallpapers that match the active Omarchy theme.

The library under `src/` holds the rules, each function with a contract
proved by Verus:

- `text` – trimming, searching, comparing and formatting text.
- `palette` – the 28-color API palette and the nearest-entry mapping.
- `api` – query validation, URL building with percent-encoding, download URL
  and size checks, error descriptions.
- `paths` – Unix path joining and component-wise comparison.
- `theme` – the `colors.toml` scanner and the curated theme color list.
- `library` – the Saved-tab listing (stable sort by name) and the removal
  safety rule.
- `cli` – `search` flag parsing, `apply` target and file name, search output.
- `model` – the API and output records.

`app/` is the `walls` program: HTTP, files, `omarchy` commands and JSON.
