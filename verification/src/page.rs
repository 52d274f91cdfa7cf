//! The fixed text of an exported run page, between the values that
//! `render_run_html` writes into it.

use vstd::prelude::*;

verus! {

pub const PAGE_BEFORE_TITLE: &'static str = "<!doctype html><html lang=\"en\"><head>\n\
         <meta charset=\"utf-8\">\n\
         <title>";

pub const PAGE_BEFORE_HEADING: &'static str = "</title>\n\
         <style>\n\
         body { font-family: system-ui, sans-serif; margin: 20px; background: #fafafa; color: #222; }\n\
         h1 { font-size: 18px; margin: 4px 0 12px 0; }\n\
         dl { display: grid; grid-template-columns: auto 1fr; gap: 2px 12px; font-size: 13px; max-width: 420px; margin: 0 0 12px 0; }\n\
         dt { color: #666; }\n\
         canvas { image-rendering: pixelated; image-rendering: crisp-edges; border: 1px solid #ccc; display: block; margin-top: 12px; background: white; width: 100%; max-width: 1600px; height: auto; }\n\
         a.back { font-size: 13px; color: #06c; text-decoration: none; }\n\
         a.back:hover { text-decoration: underline; }\n\
         </style>\n\
         </head><body>\n\
         <p><a class=\"back\" href=\"index.html\">&lt; back to index</a></p>\n\
         <h1>";

pub const PAGE_BEFORE_JOB_ID: &'static str = "</h1>\n\
         <dl>\n\
           <dt>job id</dt><dd>";

pub const PAGE_BEFORE_RULE: &'static str = "</dd>\n\
           <dt>rule</dt><dd>";

pub const PAGE_BEFORE_WIDTH: &'static str = "</dd>\n\
           <dt>width</dt><dd>";

pub const PAGE_BEFORE_PROGRESS: &'static str = "</dd>\n\
           <dt>generations</dt><dd>";

pub const PAGE_BEFORE_GENERATIONS: &'static str = " / ";

pub const PAGE_BEFORE_BOUNDARY: &'static str = "</dd>\n\
           <dt>boundary</dt><dd>";

pub const PAGE_BEFORE_STATUS: &'static str = "</dd>\n\
           <dt>status</dt><dd>";

pub const PAGE_BEFORE_EXPORTED: &'static str = "</dd>\n\
           <dt>exported</dt><dd>";

pub const PAGE_BEFORE_PREVIEW: &'static str = "</dd>\n\
           <dt>preview</dt><dd>";

pub const PAGE_BEFORE_META_W: &'static str = "</dd>\n\
         </dl>\n\
         <div style=\"margin:8px 0 4px 0;display:flex;align-items:center;gap:16px;font-size:13px;\">\n\
           <label style=\"display:flex;align-items:center;gap:6px;\">Cell size\n\
             <input id=\"cs-range\" type=\"range\" min=\"1\" max=\"16\" style=\"width:120px;vertical-align:middle;\">\n\
             <input id=\"cs-num\" type=\"number\" min=\"1\" max=\"64\" style=\"width:44px;padding:2px 4px;font-size:13px;\">px\n\
           </label>\n\
           <label style=\"display:flex;align-items:center;gap:4px;\"><input id=\"b-check\" type=\"checkbox\"> Borders</label>\n\
         </div>\n\
         <div id=\"tile-note\" style=\"font-size:12px;color:#555;margin-top:2px;\"></div>\n\
         <div id=\"tiles\"></div>\n\
         <script id=\"meta\" type=\"application/json\">{\"w\":";

pub const PAGE_BEFORE_META_H: &'static str = ",\"h\":";

pub const PAGE_BEFORE_META_CS: &'static str = ",\"cs\":";

pub const PAGE_BEFORE_META_BORDERS: &'static str = ",\"borders\":";

pub const PAGE_BEFORE_META_BW: &'static str = ",\"bw\":";

pub const PAGE_BEFORE_META_TILES: &'static str = ",\"tiles\":[";

pub const PAGE_BEFORE_META_FILL: &'static str = "],\"fill\":\"";

pub const PAGE_BEFORE_META_ALIGN: &'static str = "\",\"align\":\"";

pub const PAGE_BEFORE_META_IC: &'static str = "\",\"ic\":\"";

pub const PAGE_BEFORE_TILE_DATA: &'static str = "\"}</script>\n\
         ";


/// The viewer script that decodes the packed tiles and draws them.
pub const PAGE_SCRIPT: &'static str = "<script>\n\
        (function(){\n\
          const meta = JSON.parse(document.getElementById('meta').textContent);\n\
          if (!meta || meta.w === 0 || meta.h === 0) return;\n\
          const host   = document.getElementById('tiles');\n\
          const noteEl = document.getElementById('tile-note');\n\
          const tiles  = (meta.tiles || []).map(t => {\n\
            const b64 = (document.getElementById(t.id)?.textContent || '').trim();\n\
            if (!b64) return null;\n\
            return { bin: atob(b64), tileH: Math.max(0, (t.end||0)-(t.start||0)) };\n\
          }).filter(t => t && t.tileH > 0);\n\
          let curCs      = meta.cs || 1;\n\
          let curBorders = !!meta.borders;\n\
          function render(cs, borders) {\n\
            host.innerHTML = '';\n\
            let first = true;\n\
            for (const { bin, tileH } of tiles) {\n\
              const cv  = document.createElement('canvas');\n\
              cv.width  = meta.w * cs;\n\
              cv.height = tileH  * cs;\n\
              cv.style.display   = 'block';\n\
              cv.style.marginTop = first ? '12px' : '0';\n\
              cv.style.border    = 'none';\n\
              first = false;\n\
              const ctx = cv.getContext('2d');\n\
              if (cs === 1) {\n\
                cv.style.imageRendering = 'pixelated';\n\
                cv.style.imageRendering = 'crisp-edges';\n\
                const img = ctx.createImageData(meta.w, tileH);\n\
                for (let y = 0; y < tileH; y++) {\n\
                  for (let x = 0; x < meta.w; x++) {\n\
                    const i = y * meta.w + x;\n\
                    const bit = (bin.charCodeAt(i >> 3) >> (7 - (i & 7))) & 1;\n\
                    const p = i * 4, v = bit ? 0 : 255;\n\
                    img.data[p]=v; img.data[p+1]=v; img.data[p+2]=v; img.data[p+3]=255;\n\
                  }\n\
                }\n\
                ctx.putImageData(img, 0, 0);\n\
              } else {\n\
                cv.style.width    = cv.width  + 'px';\n\
                cv.style.height   = cv.height + 'px';\n\
                cv.style.maxWidth = 'none';\n\
                if (borders) {\n\
                  const rawBw = (typeof meta.bw === 'number') ? meta.bw : 1;\n\
                  const bw = Math.max(0, Math.min(rawBw, cs));\n\
                  const cellInset = Math.max(0, cs - bw);\n\
                  ctx.fillStyle = '#4d4d4d';\n\
                  ctx.fillRect(0, 0, cv.width, cv.height);\n\
                  for (let y = 0; y < tileH; y++) {\n\
                    for (let x = 0; x < meta.w; x++) {\n\
                      const i = y * meta.w + x;\n\
                      const bit = (bin.charCodeAt(i >> 3) >> (7 - (i & 7))) & 1;\n\
                      ctx.fillStyle = bit ? '#000000' : '#ffffff';\n\
                      ctx.fillRect(x*cs+bw, y*cs+bw, cellInset, cellInset);\n\
                    }\n\
                  }\n\
                } else {\n\
                  ctx.fillStyle = '#ffffff';\n\
                  ctx.fillRect(0, 0, cv.width, cv.height);\n\
                  ctx.fillStyle = '#000000';\n\
                  for (let y = 0; y < tileH; y++) {\n\
                    for (let x = 0; x < meta.w; x++) {\n\
                      const i = y * meta.w + x;\n\
                      const bit = (bin.charCodeAt(i >> 3) >> (7 - (i & 7))) & 1;\n\
                      if (bit) ctx.fillRect(x*cs, y*cs, cs, cs);\n\
                    }\n\
                  }\n\
                }\n\
              }\n\
              host.appendChild(cv);\n\
            }\n\
            noteEl.textContent = tiles.length > 1\n\
              ? 'Rendered ' + tiles.length + ' stacked canvases (full fidelity, stride 1).'\n\
              : '';\n\
          }\n\
          const csRange = document.getElementById('cs-range');\n\
          const csNum   = document.getElementById('cs-num');\n\
          const bCheck  = document.getElementById('b-check');\n\
          csRange.value  = curCs;\n\
          csNum.value    = curCs;\n\
          bCheck.checked = curBorders;\n\
          function applyCs(v) {\n\
            curCs = Math.max(1, parseInt(v) || 1);\n\
            csRange.value = Math.min(curCs, 16);\n\
            csNum.value   = curCs;\n\
            render(curCs, curBorders);\n\
          }\n\
          csRange.addEventListener('input',  () => applyCs(csRange.value));\n\
          csNum.addEventListener('change',   () => applyCs(csNum.value));\n\
          bCheck.addEventListener('change',  () => { curBorders = bCheck.checked; render(curCs, curBorders); });\n\
          render(curCs, curBorders);\n\
        })();\n\
        </script>\n\
        </body></html>\n";


} // verus!
