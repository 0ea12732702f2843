# iiif

A IIIF server whose core is verified with Verus.

`src/` is the library. Its contracts and laws are checked by Verus:

- Image API 3.0: parsing and resolving request parameters, info.json
  documents, canonical URIs, the processing plan, and caching headers.
- Presentation API 3.0: manifests, collections, sidecar metadata and
  content negotiation.
- Content Search 2.0: the inverted index, search, autocomplete and paging.
- Authorization Flow 2.0: sessions, tokens, access decisions and the probe.
- Change Discovery 1.0: the activity stream and its pages.
- Content State: base64url encoding and validation.
- Storage routing, configuration and environment overrides.

`app/` is the HTTP server around the library: routing, file and object-store
I/O, JSON rendering, and the floating-point pixel work on decoded images.

`tests/` exercises the library on concrete values.
